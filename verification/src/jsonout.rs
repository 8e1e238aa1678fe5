//! The JSON listing: one object per row, identity descending, textual
//! content inlined (lossily decoded), other content base64-encoded.

use vstd::prelude::*;

use base64::Engine;

use crate::mime::{lossy_chars_of, starts_with, str_eq, string_starts_with, utf8_decode_lossy};
use crate::model::RowModel;
use crate::text::{dec_str, str_chars, string_from_chars, u64_to_string};

verus! {

/// What base64 encoding yields: a function of the bytes alone.
pub uninterp spec fn b64_of(data: Seq<u8>) -> Seq<char>;

/// Relies on base64's standard engine: RFC 4648 encoding with padding,
/// a function of the bytes alone.
#[verifier::external_body]
fn b64_encode(data: &[u8]) -> (r: String)
    ensures
        r@ == b64_of(data@),
{
    base64::engine::general_purpose::STANDARD.encode(data)
}

/// A classification under which the listing inlines content as text.
pub open spec fn inline_as_text(mime: Option<Seq<char>>) -> bool {
    match mime {
        Some(m) => starts_with(m, "text/"@) || m == "application/json"@,
        None => false,
    }
}

/// What the `contents` field of a listed object holds before escaping.
pub open spec fn content_repr(r: RowModel) -> Seq<char> {
    if inline_as_text(r.mime) {
        lossy_chars_of(r.contents)
    } else {
        b64_of(r.contents)
    }
}

/// The escape of one character inside a JSON string.
pub open spec fn esc_char(c: char) -> Seq<char> {
    if c == '"' {
        "\\\""@
    } else if c == '\\' {
        "\\\\"@
    } else if c == '\u{8}' {
        "\\b"@
    } else if c == '\u{C}' {
        "\\f"@
    } else if c == '\n' {
        "\\n"@
    } else if c == '\r' {
        "\\r"@
    } else if c == '\t' {
        "\\t"@
    } else if (c as u32) < 32 {
        "\\u00"@ + seq![hex_digit((c as u32 / 16) as nat), hex_digit((c as u32 % 16) as nat)]
    } else {
        seq![c]
    }
}

/// The lower-case hexadecimal digit for a value below sixteen.
pub open spec fn hex_digit(d: nat) -> char {
    if d < 10 {
        ((48 + d) as u8) as char
    } else {
        ((87 + d) as u8) as char
    }
}

/// The escape of a whole JSON string body.
pub open spec fn esc_str(s: Seq<char>) -> Seq<char>
    decreases s.len(),
{
    if s.len() == 0 {
        Seq::<char>::empty()
    } else {
        esc_str(s.drop_last()) + esc_char(s.last())
    }
}

fn hex_digit_char(d: u32) -> (r: char)
    requires
        d < 16,
    ensures
        r == hex_digit(d as nat),
{
    if d < 10 {
        ((48 + d) as u8) as char
    } else {
        ((87 + d) as u8) as char
    }
}

/// Escape a string for inclusion in a JSON document.
pub fn json_escape(s: &str) -> (r: String)
    ensures
        r@ == esc_str(s@),
{
    let chars = str_chars(s);
    let mut out: Vec<char> = Vec::new();
    let mut i: usize = 0;
    while i < chars.len()
        invariant
            0 <= i <= chars@.len(),
            chars@ == s@,
            out@ == esc_str(s@.take(i as int)),
        decreases chars@.len() - i,
    {
        let c = chars[i];
        let ghost before = out@;
        if c == '"' {
            out.push('\\');
            out.push('"');
        } else if c == '\\' {
            out.push('\\');
            out.push('\\');
        } else if c == '\u{8}' {
            out.push('\\');
            out.push('b');
        } else if c == '\u{C}' {
            out.push('\\');
            out.push('f');
        } else if c == '\n' {
            out.push('\\');
            out.push('n');
        } else if c == '\r' {
            out.push('\\');
            out.push('r');
        } else if c == '\t' {
            out.push('\\');
            out.push('t');
        } else if (c as u32) < 32 {
            out.push('\\');
            out.push('u');
            out.push('0');
            out.push('0');
            out.push(hex_digit_char(c as u32 / 16));
            out.push(hex_digit_char(c as u32 % 16));
        } else {
            out.push(c);
        }
        proof {
            reveal_strlit("\\\"");
            reveal_strlit("\\\\");
            reveal_strlit("\\b");
            reveal_strlit("\\f");
            reveal_strlit("\\n");
            reveal_strlit("\\r");
            reveal_strlit("\\t");
            reveal_strlit("\\u00");
            assert(out@ =~= before + esc_char(c));
            assert(s@.take(i + 1).drop_last() =~= s@.take(i as int));
            assert(s@.take(i + 1).last() == c);
            assert(out@ =~= esc_str(s@.take(i + 1)));
        }
        i = i + 1;
    }
    proof {
        assert(s@.take(s@.len() as int) =~= s@);
    }
    string_from_chars(&out)
}

/// One listed object: identity, contents (inlined or base64), and the
/// recorded classification or null.
pub open spec fn json_row_spec(r: RowModel) -> Seq<char> {
    "{\"id\":"@ + dec_str(r.id as nat) + ",\"contents\":\""@ + esc_str(content_repr(r)) + "\",\"mime\":"@
        + (match r.mime {
        Some(m) => "\""@ + esc_str(m) + "\""@,
        None => "null"@,
    }) + "}"@
}

/// The comma-joined objects for `s.take(i)`, identity descending.
pub open spec fn json_items_spec(s: Seq<RowModel>, i: int) -> Seq<char>
    decreases i,
{
    if i <= 0 {
        Seq::<char>::empty()
    } else {
        json_row_spec(s[i - 1]) + (if i > 1 {
            ","@ + json_items_spec(s, i - 1)
        } else {
            Seq::<char>::empty()
        })
    }
}

/// The whole listing document for rows in ascending identity order.
pub open spec fn json_list_spec(s: Seq<RowModel>) -> Seq<char> {
    "["@ + json_items_spec(s, s.len() as int) + "]"@
}

/// Render one row as a JSON object.
pub fn json_row(row: &crate::model::Row) -> (r: String)
    ensures
        r@ == json_row_spec(row@),
{
    let mut out: String = "{\"id\":".to_owned();
    out.append(u64_to_string(row.id).as_str());
    out.append(",\"contents\":\"");
    let is_text = match &row.mime {
        Some(m) => {
            let t = string_starts_with(m.as_str(), "text/");
            t || str_eq(m.as_str(), "application/json")
        },
        None => false,
    };
    if is_text {
        let text = utf8_decode_lossy(row.contents.as_slice());
        out.append(json_escape(text.as_str()).as_str());
    } else {
        let enc = b64_encode(row.contents.as_slice());
        out.append(json_escape(enc.as_str()).as_str());
    }
    out.append("\",\"mime\":");
    match &row.mime {
        Some(m) => {
            out.append("\"");
            out.append(json_escape(m.as_str()).as_str());
            out.append("\"");
        },
        None => {
            out.append("null");
        },
    }
    out.append("}");
    out
}

} // verus!
