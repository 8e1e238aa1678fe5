use stash::negotiate::{negotiate_mime, MimeChoice, MimePreference};

fn offered(types: &[&str]) -> Vec<String> {
    types.iter().map(|t| t.to_string()).collect()
}

fn chosen(types: &[&str], pref: MimePreference) -> Option<String> {
    match negotiate_mime(&offered(types), pref) {
        Some(MimeChoice::Offered(t)) => Some(t),
        Some(MimeChoice::DirectText) => Some("<direct text read>".to_string()),
        None => None,
    }
}

#[test]
fn any_prefers_image_over_html_wrapper() {
    assert_eq!(
        chosen(&["text/html", "image/png", "text/plain"], MimePreference::Any),
        Some("image/png".to_string())
    );
}

#[test]
fn any_skips_leading_html_wrapper() {
    assert_eq!(
        chosen(&["text/html", "text/plain"], MimePreference::Any),
        Some("text/plain".to_string())
    );
}

#[test]
fn any_falls_back_to_sole_html() {
    assert_eq!(chosen(&["text/html"], MimePreference::Any), Some("text/html".to_string()));
}

#[test]
fn any_takes_first_when_not_html() {
    assert_eq!(
        chosen(&["text/plain", "text/html"], MimePreference::Any),
        Some("text/plain".to_string())
    );
}

#[test]
fn text_short_circuits_to_direct_read() {
    assert!(matches!(
        negotiate_mime(&offered(&["image/png"]), MimePreference::Text),
        Some(MimeChoice::DirectText)
    ));
}

#[test]
fn image_selects_first_image_type() {
    assert_eq!(
        chosen(&["text/plain", "image/jpeg", "image/png"], MimePreference::Image),
        Some("image/jpeg".to_string())
    );
}

#[test]
fn image_falls_back_to_first_offered() {
    assert_eq!(
        chosen(&["text/plain", "text/html"], MimePreference::Image),
        Some("text/plain".to_string())
    );
}

#[test]
fn nothing_offered_yields_nothing() {
    assert_eq!(chosen(&[], MimePreference::Any), None);
    assert_eq!(chosen(&[], MimePreference::Image), None);
}
