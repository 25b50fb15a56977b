use webclient::links::{
    accept_link, content_is_html, extract_links, find_references, looks_like_page, read_reference,
};
use webclient::text::{bytes_eq, contains, find_byte, matches_at, to_lower};

fn list(items: &[&str]) -> Vec<Vec<u8>> {
    items.iter().map(|s| s.as_bytes().to_vec()).collect()
}

#[test]
fn page_links_are_resolved_against_the_base() {
    let body = b"<a href=\"/about\">a</a> <a href='https://other.com/x'>b</a> <img src=\"pic.png\">";
    let got = extract_links(b"https://example.com/dir/page.html", b"text/html; charset=utf-8", body);
    assert_eq!(
        got,
        list(&["https://example.com/about", "https://other.com/x", "https://example.com/dir/pic.png"])
    );
}

#[test]
fn other_content_has_no_links() {
    let body = b"<a href=\"/about\">a</a>";
    assert!(extract_links(b"https://example.com/", b"image/png", body).is_empty());
    assert!(extract_links(b"https://example.com/", b"", body).is_empty());
    assert!(extract_links(b"https://example.com/", b"image/png", b"<html><a href=\"/a\">").is_empty());
    assert_eq!(
        extract_links(b"https://example.com/", b"", b"<Html><a href=\"/a\">"),
        list(&["https://example.com/a"])
    );
    assert!(looks_like_page(b"", b"<HTML>"));
    assert!(!looks_like_page(b"", b"html"));
    assert!(!looks_like_page(b"text/plain", b"<html>"));
    assert!(looks_like_page(b"text/html", b""));
    assert_eq!(extract_links(b"https://example.com/", b"TEXT/HTML", body), list(&["https://example.com/about"]));
}

#[test]
fn non_web_references_are_dropped() {
    let body = b"<a href=\"mailto:a@b.c\">m</a><a href=\"javascript:void(0)\">j</a><a href=\"ftp://f/x\">f</a><a href=\"ok\">o</a>";
    assert_eq!(extract_links(b"http://h/", b"text/html", body), list(&["http://h/ok"]));
}

#[test]
fn fragments_and_repeats_collapse() {
    let body = b"<a href=\"/a#1\">1</a><a href=\"/a#2\">2</a><a href=\"/a\">3</a><a href=\"#top\">4</a>";
    assert_eq!(extract_links(b"http://x/", b"text/html", body), list(&["http://x/a", "http://x/"]));
}

#[test]
fn unreadable_base_gives_no_links() {
    let body = b"<a href=\"/a\">1</a>";
    assert!(extract_links(b"not a base", b"text/html", body).is_empty());
    assert_eq!(extract_links(b"not a base", b"text/html", b"<a href=\"http://x/y\">"), Vec::<Vec<u8>>::new());
}

#[test]
fn references_are_read_between_matching_quotes() {
    assert_eq!(read_reference(b"href=\"a'b\"", 0), Some(b"a'b".to_vec()));
    assert_eq!(read_reference(b"href='a\"b'", 0), Some(b"a\"b".to_vec()));
    assert_eq!(read_reference(b"src=\"\"", 0), Some(Vec::new()));
    assert_eq!(read_reference(b"href=\"open", 0), None);
    assert_eq!(read_reference(b"href=bare", 0), None);
    assert_eq!(read_reference(b"href=", 0), None);
    assert_eq!(read_reference(b"xhref=\"a\"", 0), None);
    assert_eq!(read_reference(b"xhref=\"a\"", 1), Some(b"a".to_vec()));
    assert_eq!(read_reference(b"abc", 7), None);
}

#[test]
fn references_come_in_position_order() {
    let body = b"src='1' href=\"2\" href='3";
    assert_eq!(find_references(body), list(&["1", "2"]));
    assert_eq!(find_references(b""), Vec::<Vec<u8>>::new());
}

#[test]
fn accepted_links_are_web_and_canonical() {
    assert_eq!(accept_link(Some(b"https://x/a#f".to_vec())), Some(b"https://x/a".to_vec()));
    assert_eq!(accept_link(Some(b"mailto:x".to_vec())), None);
    assert_eq!(accept_link(None), None);
}

#[test]
fn html_is_found_in_any_case() {
    assert!(content_is_html(b"text/html"));
    assert!(content_is_html(b"application/xhtml+xml"));
    assert!(content_is_html(b"Text/HTML"));
    assert!(!content_is_html(b"text/plain"));
    assert!(!content_is_html(b"htm"));
}

#[test]
fn byte_helpers() {
    assert!(contains(b"abcabc", b"cab"));
    assert!(contains(b"abc", b""));
    assert!(contains(b"", b""));
    assert!(!contains(b"abc", b"abcd"));
    assert!(matches_at(b"abc", b"bc", 1));
    assert!(matches_at(b"abc", b"", 3));
    assert!(!matches_at(b"abc", b"", 4));
    assert!(!matches_at(b"abc", b"bc", 2));
    assert_eq!(find_byte(b"a#b#", 0, b'#'), 1);
    assert_eq!(find_byte(b"a#b#", 2, b'#'), 3);
    assert_eq!(find_byte(b"a#b#", 4, b'#'), 4);
    assert_eq!(find_byte(b"abc", 0, b'#'), 3);
    assert_eq!(find_byte(b"abc", 9, b'#'), 3);
    assert_eq!(to_lower(b"AbZ[@z09"), b"abz[@z09".to_vec());
    assert!(bytes_eq(b"ab", b"ab"));
    assert!(!bytes_eq(b"ab", b"abc"));
    assert!(!bytes_eq(b"ab", b"ac"));
}
