//! Content classification, inferred once at store time: image formats by
//! magic bytes, otherwise UTF-8 text (distinguished as a URI list when
//! its lines look like `scheme://...`), else unclassified binary.

use vstd::prelude::*;
use vstd::utf8::{decode_utf8, valid_utf8};

use imagesize::{Compression, ImageType};

use crate::text::{str_chars, trim_chars, trim_spec};

verus! {

/// What image-format sniffing yields for the given header bytes: a MIME
/// name for a recognised format, `None` otherwise.  A function of the
/// bytes alone.
pub uninterp spec fn image_mime_of(data: Seq<u8>) -> Option<Seq<char>>;

/// Relies on imagesize::image_type: image format detection by magic
/// bytes, a function of the header bytes alone; each recognised format
/// maps to its MIME name, any other to the generic binary one.
#[verifier::external_body]
pub(crate) fn sniff_image(data: &[u8]) -> (r: Option<String>)
    ensures
        r.deep_view() == image_mime_of(data@),
{
    imagesize::image_type(data).ok().map(|t| match t {
        ImageType::Png => "image/png", ImageType::Jpeg => "image/jpeg",
        ImageType::Gif => "image/gif", ImageType::Bmp => "image/bmp",
        ImageType::Tiff => "image/tiff", ImageType::Webp => "image/webp",
        ImageType::Aseprite => "image/x-aseprite", ImageType::Dds(_) => "image/vnd.ms-dds",
        ImageType::Exr => "image/aces", ImageType::Farbfeld => "image/farbfeld",
        ImageType::Hdr => "image/vnd.radiance", ImageType::Ico => "image/x-icon",
        ImageType::Ilbm => "image/ilbm", ImageType::Jxl => "image/jxl",
        ImageType::Ktx2 => "image/ktx2", ImageType::Pnm => "image/x-portable-anymap",
        ImageType::Psd => "image/vnd.adobe.photoshop", ImageType::Qoi => "image/qoi",
        ImageType::Tga => "image/x-tga", ImageType::Vtf => "image/x-vtf",
        ImageType::Heif(Compression::Hevc) => "image/heic", ImageType::Heif(_) => "image/heif",
        _ => "application/octet-stream",
    }.to_owned())
}

/// Relies on str::from_utf8: it succeeds exactly on valid UTF-8 and
/// yields its decoding.
#[verifier::external_body]
pub(crate) fn utf8_decode(data: &[u8]) -> (r: Option<String>)
    ensures
        r is Some <==> valid_utf8(data@),
        r matches Some(s) ==> s@ == decode_utf8(data@),
{
    std::str::from_utf8(data).ok().map(|s| s.to_owned())
}

/// What lossy UTF-8 decoding yields: a function of the bytes alone
/// (invalid sequences become replacement characters).
pub uninterp spec fn lossy_chars_of(data: Seq<u8>) -> Seq<char>;

/// Relies on String::from_utf8_lossy: invalid sequences become
/// replacement characters; valid input decodes exactly.
#[verifier::external_body]
pub(crate) fn utf8_decode_lossy(data: &[u8]) -> (r: String)
    ensures
        r@ == lossy_chars_of(data@),
        valid_utf8(data@) ==> r@ == decode_utf8(data@),
{
    String::from_utf8_lossy(data).into_owned()
}

/// `s` begins with `p`.
pub open spec fn starts_with(s: Seq<char>, p: Seq<char>) -> bool {
    s.len() >= p.len() && s.take(p.len() as int) == p
}

/// `s` begins with one of the URI schemes a file manager writes.
pub open spec fn scheme_prefixed(s: Seq<char>) -> bool {
    starts_with(s, "file://"@) || starts_with(s, "http://"@) || starts_with(s, "https://"@)
        || starts_with(s, "ftp://"@)
}

/// Index of the first line break in `s` (its length when there is none).
pub open spec fn first_nl(s: Seq<char>) -> nat
    decreases s.len(),
{
    if s.len() == 0 {
        0
    } else if s[0] == '\n' {
        0
    } else {
        1 + first_nl(s.skip(1))
    }
}

proof fn lemma_first_nl(s: Seq<char>, k: int)
    requires
        0 <= k <= s.len(),
        forall|i: int| 0 <= i < k ==> s[i] != '\n',
        k < s.len() ==> s[k] == '\n',
    ensures
        first_nl(s) == k,
    decreases k,
{
    if k > 0 {
        lemma_first_nl(s.skip(1), k - 1);
        assert(forall|i: int| 0 <= i < k - 1 ==> s.skip(1)[i] == s[i + 1]);
    }
}

/// Line-by-line scan of a URI list: skip empty and `#`-comment lines;
/// the first content line decides, by whether it carries a URI scheme.
pub open spec fn uri_scan(s: Seq<char>) -> bool
    decreases s.len(),
{
    let k = first_nl(s) as int;
    let line = trim_spec(s.take(k));
    if line.len() == 0 || line[0] == '#' {
        if k < s.len() {
            uri_scan(s.skip(k + 1))
        } else {
            false
        }
    } else {
        scheme_prefixed(line)
    }
}

/// Whether already-trimmed text is a URI list: it opens with a URI
/// scheme or a comment, and its first content line carries a scheme.
pub open spec fn is_uri_list_spec(t: Seq<char>) -> bool {
    t.len() > 0 && (scheme_prefixed(t) || t[0] == '#') && uri_scan(t)
}

fn chars_start_with(s: &Vec<char>, p: &Vec<char>) -> (r: bool)
    ensures
        r == starts_with(s@, p@),
{
    if p.len() > s.len() {
        return false;
    }
    let mut i: usize = 0;
    while i < p.len()
        invariant
            0 <= i <= p@.len() <= s@.len(),
            forall|k: int| 0 <= k < i ==> s@[k] == p@[k],
        decreases p@.len() - i,
    {
        if s[i] != p[i] {
            proof {
                assert(s@.take(p@.len() as int)[i as int] != p@[i as int]);
            }
            return false;
        }
        i = i + 1;
    }
    proof {
        assert(s@.take(p@.len() as int) =~= p@);
    }
    true
}

/// Whether two string slices hold the same characters.
pub fn str_eq(a: &str, b: &str) -> (r: bool)
    ensures
        r == (a@ == b@),
{
    let ao: String = a.to_owned();
    let bo: String = b.to_owned();
    ao == bo
}

/// Whether `s` begins with `p`.
pub fn string_starts_with(s: &str, p: &str) -> (r: bool)
    ensures
        r == starts_with(s@, p@),
{
    let sc = str_chars(s);
    let pc = str_chars(p);
    chars_start_with(&sc, &pc)
}

fn chars_scheme_prefixed(s: &Vec<char>) -> (r: bool)
    ensures
        r == scheme_prefixed(s@),
{
    let file_p = str_chars("file://");
    let http_p = str_chars("http://");
    let https_p = str_chars("https://");
    let ftp_p = str_chars("ftp://");
    chars_start_with(s, &file_p) || chars_start_with(s, &http_p) || chars_start_with(s, &https_p)
        || chars_start_with(s, &ftp_p)
}

fn is_uri_list_chars(chars: &Vec<char>) -> (r: bool)
    ensures
        r == is_uri_list_spec(chars@),
{
    let ghost t = chars@;
    if chars.len() == 0 {
        return false;
    }
    if !(chars_scheme_prefixed(chars) || chars[0] == '#') {
        return false;
    }
    proof {
        assert(t.skip(0) =~= t);
    }
    let mut pos: usize = 0;
    loop
        invariant
            0 <= pos <= t.len(),
            chars@ == t,
            t.len() > 0 && (scheme_prefixed(t) || t[0] == '#'),
            uri_scan(t) == uri_scan(t.skip(pos as int)),
        decreases t.len() - pos,
    {
        let ghost suf = t.skip(pos as int);
        let mut e: usize = pos;
        while e < chars.len() && chars[e] != '\n'
            invariant
                pos <= e <= t.len(),
                chars@ == t,
                forall|i: int| pos <= i < e ==> t[i] != '\n',
            decreases t.len() - e,
        {
            e = e + 1;
        }
        proof {
            assert(forall|i: int| 0 <= i < e - pos ==> suf[i] == t[i + pos]);
            lemma_first_nl(suf, e - pos);
        }
        let mut line: Vec<char> = Vec::new();
        let mut i: usize = pos;
        while i < e
            invariant
                pos <= i <= e <= t.len(),
                chars@ == t,
                line@ == t.skip(pos as int).take(i - pos),
            decreases e - i,
        {
            line.push(chars[i]);
            proof {
                assert(line@ =~= t.skip(pos as int).take(i + 1 - pos));
            }
            i = i + 1;
        }
        let trimmed = trim_chars(&line);
        if trimmed.len() == 0 || trimmed[0] == '#' {
            if e < chars.len() {
                proof {
                    assert(suf.skip(e - pos + 1) =~= t.skip(e + 1));
                }
                pos = e + 1;
            } else {
                return false;
            }
        } else {
            return chars_scheme_prefixed(&trimmed);
        }
    }
}

/// Whether `text` (already trimmed) is a URI list, as file managers
/// write one: `scheme://` URIs one per line, `#` for comments.
pub fn is_uri_list(text: &str) -> (r: bool)
    ensures
        r == is_uri_list_spec(text@),
{
    let chars = str_chars(text);
    is_uri_list_chars(&chars)
}

/// The classification recorded for stored bytes: a sniffed image format
/// first; otherwise UTF-8 text, distinguished as a URI list when its
/// lines look like `scheme://...`; else unclassified binary.
pub open spec fn detect_mime_spec(data: Seq<u8>) -> Option<Seq<char>> {
    if data.len() == 0 {
        None
    } else if image_mime_of(data) is Some {
        image_mime_of(data)
    } else if valid_utf8(data) {
        if is_uri_list_spec(trim_spec(decode_utf8(data))) {
            Some("text/uri-list"@)
        } else {
            Some("text/plain"@)
        }
    } else {
        None
    }
}

/// Classify clipboard bytes.
pub fn detect_mime(data: &[u8]) -> (r: Option<String>)
    ensures
        r.deep_view() == detect_mime_spec(data@),
{
    if data.len() == 0 {
        return None;
    }
    if let Some(m) = sniff_image(data) {
        return Some(m);
    }
    match utf8_decode(data) {
        Some(text) => {
            let chars = str_chars(text.as_str());
            let trimmed = trim_chars(&chars);
            if is_uri_list_chars(&trimmed) {
                Some("text/uri-list".to_owned())
            } else {
                Some("text/plain".to_owned())
            }
        },
        None => None,
    }
}

} // verus!
