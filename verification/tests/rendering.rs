//! Previews, MIME checks and table rendering.
use wclipd::clip::{render_preview, text_mimes, ClipBody, Entry};
use wclipd::mime::{fallback_mime, is_image, is_text};
use wclipd::table::{align, repeat, Align, AsciiTable, Style};

#[test]
fn preview_collapses_whitespace() {
    assert_eq!(render_preview("  hello   world  ", 80), "hello world");
    assert_eq!(render_preview("a\nb\tc", 80), "a b c");
    assert_eq!(render_preview("plain", 80), "plain");
}

#[test]
fn preview_truncates_with_ellipsis() {
    assert_eq!(render_preview("abcdef", 4), "a...");
    assert_eq!(render_preview("abcd", 4), "abcd");
    assert_eq!(render_preview("abcdef", 2), "...");
}

#[test]
fn preview_quotes_pure_whitespace() {
    assert_eq!(render_preview("   ", 80), "\" \"");
    assert_eq!(render_preview("\n", 80), "\"\\n\"");
    assert_eq!(render_preview("", 80), "\"\"");
}

#[test]
fn entry_preview_renders_text_bodies() {
    let e = Entry::text("  spaced   out  ".to_string(), None);
    assert_eq!(e.preview(80), "spaced out");
}

#[test]
fn mime_checks() {
    assert!(is_text("TEXT"));
    assert!(is_text("UTF8_STRING"));
    assert!(is_text("text/plain;charset=utf-8"));
    assert!(!is_text("image/png"));
    assert!(is_image("image/png"));
    assert!(!is_image("text/plain"));
}

#[test]
fn fallback_mime_is_ascii_or_unknown() {
    assert_eq!(fallback_mime(b"plain ascii"), "text/plain");
    assert_eq!(fallback_mime(&[0xC3, 0xA9]), "unknown");
    assert_eq!(fallback_mime(&[]), "text/plain");
}

#[test]
fn text_mimes_puts_new_hint_first() {
    let plain = text_mimes(None);
    assert_eq!(plain.len(), 5);
    assert_eq!(plain[0], "text/plain;charset=utf-8");
    let hinted = text_mimes(Some("text/markdown".to_string()));
    assert_eq!(hinted.len(), 6);
    assert_eq!(hinted[0], "text/markdown");
    let already = text_mimes(Some("TEXT".to_string()));
    assert_eq!(already.len(), 5);
}

#[test]
fn entry_mime_prefers_full_types() {
    let e = Entry::text("x".to_string(), None);
    assert_eq!(e.mime(), "text/plain;charset=utf-8");
    let bare = Entry { mime: vec!["TEXT".to_string()], body: ClipBody::Text("x".to_string()) };
    assert_eq!(bare.mime(), "TEXT");
    let none = Entry { mime: vec![], body: ClipBody::Text("x".to_string()) };
    assert_eq!(none.mime(), "N/A");
}

#[test]
fn body_matches_ignores_surrounding_whitespace() {
    let a = ClipBody::Text("  hi  ".to_string());
    let b = ClipBody::Text("hi".to_string());
    assert!(a.matches(&b));
    let c = ClipBody::Text("h i".to_string());
    assert!(!a.matches(&c));
    let d = ClipBody::Data(b"hi".to_vec());
    assert!(a.matches(&d), "trimmed text bytes can match data bytes");
}

#[test]
fn entry_equality_is_by_body() {
    let a = Entry::text("same".to_string(), None);
    let b = Entry::text("same".to_string(), Some("text/html".to_string()));
    assert!(a.same(&b));
    let c = Entry { mime: vec![], body: ClipBody::Data(b"same".to_vec()) };
    assert!(!a.same(&c), "a text body never equals a data body");
}

#[test]
fn repeat_and_align_render_exactly() {
    assert_eq!(repeat('-', 3), "---");
    assert_eq!(repeat('-', 0), "");
    assert_eq!(align(&"ab".to_string(), 4, ' ', &Align::Left), " ab   ");
    assert_eq!(align(&"ab".to_string(), 4, ' ', &Align::Right), "   ab ");
    assert_eq!(align(&"ab".to_string(), 4, ' ', &Align::Center), "  ab  ");
    assert_eq!(align(&"ab".to_string(), 5, ' ', &Align::Center), "   ab  ");
}

#[test]
fn table_draw_has_edges_and_one_line_per_row() {
    let mut t = AsciiTable::new("title".to_string(), Style::Standard);
    t.align_column(0, Align::Right);
    let rows = vec![
        vec!["1".to_string(), "one".to_string()],
        vec!["2".to_string(), "two".to_string()],
    ];
    let drawn = t.draw(&rows);
    let lines: Vec<&str> = drawn.lines().collect();
    assert_eq!(lines.len(), 4, "a top edge, two rows, a bottom edge");
    assert!(lines[0].starts_with('+') && lines[0].ends_with('+'));
    assert!(lines[3].starts_with('+') && lines[3].ends_with('+'));
    assert!(lines[0].contains(" title "));
    assert!(lines[1].contains("one"));
    assert!(lines[2].contains("two"));
    let width = lines[0].chars().count();
    for line in &lines {
        assert_eq!(line.chars().count(), width, "every line is as wide as the table");
    }
}

#[test]
fn table_styles_pick_their_pieces() {
    assert_eq!(Style::Standard.array()[0], '|');
    assert_eq!(Style::Fancy.array()[0], '\u{2502}');
    assert_eq!(Style::default(), Style::Fancy);
    assert_eq!(Align::default(), Align::Left);
}

#[test]
fn data_entry_with_hint_follows_its_class() {
    let e = Entry::data(b"x", Some("text/plain".to_string()));
    assert_eq!(e.mime, text_mimes(Some("text/plain".to_string())));
    let img = Entry::data(&[1, 2, 3], Some("image/png".to_string()));
    assert_eq!(img.mime[0], "text/plain", "image candidates lead with the text targets");
    assert!(img.mime.iter().any(|m| m == "image/png"));
    let other = Entry::data(&[1], Some("application/zip".to_string()));
    assert_eq!(other.mime, vec!["application/zip".to_string()]);
}

#[test]
fn capture_conversion_classifies_offers() {
    let text_offer = Entry::from_capture(
        vec!["text/plain".to_string(), "TEXT".to_string()],
        ClipBody::Text("x".to_string()),
    );
    assert_eq!(text_offer.mime.len(), 5, "all-text offers take the text candidates");
    let image_offer = Entry::from_capture(
        vec!["image/png".to_string()],
        ClipBody::Data(vec![1]),
    );
    assert_eq!(image_offer.mime.len(), 9, "image offers take the image candidates");
    let odd_offer = Entry::from_capture(
        vec!["application/zip".to_string()],
        ClipBody::Data(vec![1]),
    );
    assert_eq!(odd_offer.mime, vec!["application/zip".to_string()]);
}
