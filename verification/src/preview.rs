//! The preview rendering contract: image content renders as a bracketed
//! placeholder carrying size and type, never raw bytes; textual content
//! is whitespace-blanked and truncated to a caller-supplied character
//! budget with a truncation marker; other binary content falls back to a
//! lossy text decoding before the same truncation.

use vstd::prelude::*;
use vstd::utf8::{decode_utf8, valid_utf8};

use crate::mime::{
    lossy_chars_of, starts_with, str_eq, string_starts_with, utf8_decode, utf8_decode_lossy,
};
use crate::text::{
    char_is_space, dec_str, is_space, size_str, size_str_spec, str_chars, string_from_chars,
    trim_chars, trim_spec, truncate, truncate_spec, u64_to_string,
};

verus! {

/// What image-size probing yields for the given bytes: pixel width and
/// height for a recognised image, `None` otherwise.  A function of the
/// bytes alone.
pub uninterp spec fn image_dims_of(data: Seq<u8>) -> Option<(usize, usize)>;

/// Relies on imagesize::blob_size: image dimensions parsed from the
/// header bytes, a function of the bytes alone.
#[verifier::external_body]
fn image_dims(data: &[u8]) -> (r: Option<(usize, usize)>)
    ensures
        r == image_dims_of(data@),
{
    match imagesize::blob_size(data) {
        Ok(sz) => Some((sz.width, sz.height)),
        Err(_) => None,
    }
}

/// Every whitespace character replaced by a plain space.
pub open spec fn blank_spaces(s: Seq<char>) -> Seq<char> {
    s.map_values(|c: char| if is_space(c) { ' ' } else { c })
}

/// What a preview shows for the given contents and classification.
pub open spec fn preview_spec(data: Seq<u8>, mime: Option<Seq<char>>, width: nat) -> Seq<char> {
    if (match mime {
        Some(m) => starts_with(m, "image/"@),
        None => false,
    }) && image_dims_of(data) is Some {
        let dims = image_dims_of(data)->0;
        let m = mime->0;
        "[[ binary data "@ + size_str_spec(data.len()) + " "@ + m + " "@ + dec_str(
            dims.0 as nat,
        ) + "x"@ + dec_str(dims.1 as nat) + " ]]"@
    } else if (match mime {
        Some(m) => m == "application/json"@ || starts_with(m, "text/"@),
        None => false,
    }) {
        let s = if valid_utf8(data) {
            decode_utf8(data)
        } else {
            Seq::<char>::empty()
        };
        truncate_spec(blank_spaces(trim_spec(s)), width, "\u{2026}"@)
    } else {
        truncate_spec(trim_spec(lossy_chars_of(data)), width, "\u{2026}"@)
    }
}

proof fn lemma_image_not_textual(m: Seq<char>)
    requires
        starts_with(m, "image/"@),
    ensures
        m != "application/json"@,
        !starts_with(m, "text/"@),
{
    reveal_strlit("image/");
    reveal_strlit("text/");
    reveal_strlit("application/json");
    assert(m.take("image/"@.len() as int)[0] == m[0]);
    assert(m[0] == 'i');
    if starts_with(m, "text/"@) {
        assert(m.take("text/"@.len() as int)[0] == m[0]);
        assert(m[0] == 't');
    }
    if m == "application/json"@ {
        assert(m[0] == 'a');
    }
}

fn blank_chars(v: &Vec<char>) -> (r: Vec<char>)
    ensures
        r@ == blank_spaces(v@),
{
    let mut out: Vec<char> = Vec::new();
    let mut i: usize = 0;
    while i < v.len()
        invariant
            0 <= i <= v@.len(),
            out@.len() == i,
            forall|k: int|
                0 <= k < i ==> out@[k] == (if is_space(v@[k]) {
                    ' '
                } else {
                    v@[k]
                }),
        decreases v@.len() - i,
    {
        let c = v[i];
        if char_is_space(c) {
            out.push(' ');
        } else {
            out.push(c);
        }
        i = i + 1;
    }
    proof {
        assert(out@ =~= blank_spaces(v@));
    }
    out
}

/// Render the preview of an entry's contents under a character budget.
pub fn preview_entry(data: &[u8], mime: Option<&str>, width: u32) -> (r: String)
    ensures
        r@ == preview_spec(
            data@,
            match mime {
                Some(m) => Some(m@),
                None => None,
            },
            width as nat,
        ),
{
    if let Some(m) = mime {
        if string_starts_with(m, "image/") {
            if let Some(dims) = image_dims(data) {
                let mut out: String = "[[ binary data ".to_owned();
                out.append(size_str(data.len()).as_str());
                out.append(" ");
                out.append(m);
                out.append(" ");
                out.append(u64_to_string(dims.0 as u64).as_str());
                out.append("x");
                out.append(u64_to_string(dims.1 as u64).as_str());
                out.append(" ]]");
                return out;
            }
            proof {
                lemma_image_not_textual(m@);
            }
        } else {
            let is_json = str_eq(m, "application/json");
            if is_json || string_starts_with(m, "text/") {
                let text = match utf8_decode(data) {
                    Some(t) => t,
                    None => String::new(),
                };
                let chars = str_chars(text.as_str());
                let trimmed = trim_chars(&chars);
                let blanked = blank_chars(&trimmed);
                let joined = string_from_chars(&blanked);
                return truncate(joined.as_str(), width as usize, "\u{2026}");
            }
        }
    }
    let text = utf8_decode_lossy(data);
    let chars = str_chars(text.as_str());
    let trimmed = trim_chars(&chars);
    let joined = string_from_chars(&trimmed);
    truncate(joined.as_str(), width as usize, "\u{2026}")
}

} // verus!
