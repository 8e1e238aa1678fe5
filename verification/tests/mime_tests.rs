use stash::mime::detect_mime;

#[test]
fn test_empty_data() {
    assert_eq!(detect_mime(b""), None);
}

#[test]
fn test_plain_text() {
    let data = b"Hello, world!";
    assert_eq!(detect_mime(data), Some("text/plain".to_string()));
}

#[test]
fn test_uri_list_single_file() {
    let data = b"file:///home/user/document.pdf";
    assert_eq!(detect_mime(data), Some("text/uri-list".to_string()));
}

#[test]
fn test_uri_list_multiple_files() {
    let data = b"file:///home/user/file1.txt\nfile:///home/user/file2.txt";
    assert_eq!(detect_mime(data), Some("text/uri-list".to_string()));
}

#[test]
fn test_uri_list_with_comments() {
    let data = b"# Comment\nfile:///home/user/file.txt";
    assert_eq!(detect_mime(data), Some("text/uri-list".to_string()));
}

#[test]
fn test_uri_list_http() {
    let data = b"https://example.com/image.png";
    assert_eq!(detect_mime(data), Some("text/uri-list".to_string()));
}

#[test]
fn test_not_uri_list() {
    let data = b"This is just text with file:// in the middle";
    assert_eq!(detect_mime(data), Some("text/plain".to_string()));
}

#[test]
fn test_unknown_binary() {
    // Binary data that's not UTF-8 and not a known format
    let data = b"\x80\x81\x82\x83\x84\x85\x86\x87";
    assert_eq!(detect_mime(data), None);
}

#[test]
fn test_uri_list_trailing_newline() {
    let data = b"file:///foo\n";
    assert_eq!(detect_mime(data), Some("text/uri-list".to_string()));
}

#[test]
fn test_uri_list_ftp() {
    let data = b"ftp://host/path";
    assert_eq!(detect_mime(data), Some("text/uri-list".to_string()));
}

#[test]
fn test_uri_list_mixed_schemes() {
    let data = b"file:///home/user/doc.pdf\nhttps://example.com/file.zip";
    assert_eq!(detect_mime(data), Some("text/uri-list".to_string()));
}

#[test]
fn test_plain_url_in_text() {
    let data = b"visit http://example.com for info";
    assert_eq!(detect_mime(data), Some("text/plain".to_string()));
}

#[test]
fn test_png_magic_bytes() {
    // Real PNG header: 8-byte signature + minimal IHDR chunk
    let data: &[u8] = &[
        0x89, 0x50, 0x4E, 0x47, 0x0D, 0x0A, 0x1A, 0x0A, // PNG signature
        0x00, 0x00, 0x00, 0x0D, // IHDR chunk length
        0x49, 0x48, 0x44, 0x52, // "IHDR"
        0x00, 0x00, 0x00, 0x01, // width: 1
        0x00, 0x00, 0x00, 0x01, // height: 1
        0x08, 0x02, // bit depth: 8, color type: 2 (RGB)
        0x00, 0x00, 0x00, // compression, filter, interlace
        0x90, 0x77, 0x53, 0xDE, // CRC
    ];
    assert_eq!(detect_mime(data), Some("image/png".to_string()));
}

#[test]
fn test_jpeg_magic_bytes() {
    // JPEG SOI marker + APP0 (JFIF) marker
    let data: &[u8] = &[
        0xFF, 0xD8, 0xFF, 0xE0, // SOI + APP0
        0x00, 0x10, // Length
        0x4A, 0x46, 0x49, 0x46, 0x00, // "JFIF\0"
        0x01, 0x01, 0x00, 0x00, 0x01, 0x00, 0x01, 0x00, 0x00,
    ];
    assert_eq!(detect_mime(data), Some("image/jpeg".to_string()));
}

#[test]
fn test_gif_magic_bytes() {
    // GIF89a header
    let data: &[u8] = &[
        0x47, 0x49, 0x46, 0x38, 0x39, 0x61, // "GIF89a"
        0x01, 0x00, 0x01, 0x00, // 1x1
        0x80, 0x00, 0x00, // GCT flag, bg, aspect
    ];
    assert_eq!(detect_mime(data), Some("image/gif".to_string()));
}

#[test]
fn test_webp_magic_bytes() {
    // RIFF....WEBP header
    let data: &[u8] = &[
        0x52, 0x49, 0x46, 0x46, // "RIFF"
        0x24, 0x00, 0x00, 0x00, // file size
        0x57, 0x45, 0x42, 0x50, // "WEBP"
        0x56, 0x50, 0x38, 0x20, // "VP8 "
        0x18, 0x00, 0x00, 0x00, // chunk size
        0x30, 0x01, 0x00, 0x9D, 0x01, 0x2A, // VP8 bitstream
        0x01, 0x00, 0x01, 0x00, // width/height
    ];
    assert_eq!(detect_mime(data), Some("image/webp".to_string()));
}

#[test]
fn test_farbfeld_magic_bytes() {
    // "farbfeld" magic + 32-bit width and height
    let data: &[u8] = &[
        0x66, 0x61, 0x72, 0x62, 0x66, 0x65, 0x6C, 0x64, // "farbfeld"
        0x00, 0x00, 0x00, 0x01, // width: 1
        0x00, 0x00, 0x00, 0x01, // height: 1
    ];
    assert_eq!(detect_mime(data), Some("image/farbfeld".to_string()));
}

#[test]
fn test_qoi_magic_bytes() {
    // "qoif" magic + 32-bit width and height + channels + colorspace
    let data: &[u8] = &[
        0x71, 0x6F, 0x69, 0x66, // "qoif"
        0x00, 0x00, 0x00, 0x01, // width: 1
        0x00, 0x00, 0x00, 0x01, // height: 1
        0x03, 0x00, // channels: 3, colorspace: 0
    ];
    assert_eq!(detect_mime(data), Some("image/qoi".to_string()));
}

#[test]
fn test_whitespace_only() {
    let data = b"   \n\t  ";
    // Valid UTF-8 text, even if only whitespace; classification does not
    // reject it (the store rejects it separately). As text it's text/plain.
    assert_eq!(detect_mime(data), Some("text/plain".to_string()));
}
