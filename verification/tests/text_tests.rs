use stash::preview::preview_entry;
use stash::text::{extract_id, size_str, truncate, u64_to_string};

#[test]
fn extract_id_reads_first_tab_field() {
    assert_eq!(extract_id("42\tsome preview"), Ok(42));
    assert_eq!(extract_id("7"), Ok(7));
    assert_eq!(extract_id("+7\trest"), Ok(7));
    assert!(extract_id("x7\trest").is_err());
    assert!(extract_id("").is_err());
    assert!(extract_id("\t42").is_err());
    assert!(extract_id("99999999999999999999999999\trest").is_err());
}

#[test]
fn truncate_respects_character_budget() {
    assert_eq!(truncate("hello", 10, "\u{2026}"), "hello");
    assert_eq!(truncate("hello world", 5, "\u{2026}"), "hello\u{2026}");
    assert_eq!(truncate("", 0, "\u{2026}"), "");
    assert_eq!(truncate("abc", 0, "\u{2026}"), "\u{2026}");
}

#[test]
fn size_str_scales_units() {
    assert_eq!(size_str(0), "0 B");
    assert_eq!(size_str(1023), "1023 B");
    assert_eq!(size_str(1024), "1 KiB");
    assert_eq!(size_str(1536), "2 KiB");
    assert_eq!(size_str(1024 * 1024), "1 MiB");
    assert_eq!(size_str(5 * 1024 * 1024), "5 MiB");
}

#[test]
fn u64_rendering_is_decimal() {
    assert_eq!(u64_to_string(0), "0");
    assert_eq!(u64_to_string(907), "907");
    assert_eq!(u64_to_string(u64::MAX), "18446744073709551615");
}

#[test]
fn preview_blanks_whitespace_and_truncates() {
    let p = preview_entry(b"  line one\nline two  ", Some("text/plain"), 100);
    assert_eq!(p, "line one line two");
    let p = preview_entry(b"abcdef", Some("text/plain"), 3);
    assert_eq!(p, "abc\u{2026}");
}

#[test]
fn preview_shows_image_placeholder() {
    let png: &[u8] = &[
        0x89, 0x50, 0x4E, 0x47, 0x0D, 0x0A, 0x1A, 0x0A, 0x00, 0x00, 0x00, 0x0D, 0x49, 0x48,
        0x44, 0x52, 0x00, 0x00, 0x00, 0x01, 0x00, 0x00, 0x00, 0x01, 0x08, 0x02, 0x00, 0x00,
        0x00, 0x90, 0x77, 0x53, 0xDE,
    ];
    let p = preview_entry(png, Some("image/png"), 100);
    assert_eq!(p, "[[ binary data 33 B image/png 1x1 ]]");
}

#[test]
fn preview_falls_back_to_lossy_text() {
    let mut data = b"abc ".to_vec();
    data.push(0xFF);
    let p = preview_entry(&data, None, 100);
    assert_eq!(p, "abc \u{FFFD}");
}
