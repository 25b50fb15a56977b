use webclient::address::{canonical, https_check, starts_web};
use webclient::path_map::{default_file_name, is_kept, map_path, map_url, split_path};

fn segs(list: &[&str]) -> Vec<Vec<u8>> {
    list.iter().map(|s| s.as_bytes().to_vec()).collect()
}

#[test]
fn root_maps_to_host_file() {
    assert_eq!(map_path(b"example.com", b"/").segments, segs(&["example.com.html"]));
    assert_eq!(map_path(b"example.com", b"").segments, segs(&["example.com.html"]));
}

#[test]
fn plain_path_keeps_its_segments() {
    assert_eq!(map_path(b"example.com", b"/about").segments, segs(&["about"]));
    assert_eq!(map_path(b"example.com", b"/a/b/c.png").segments, segs(&["a", "b", "c.png"]));
}

#[test]
fn directory_path_gets_index() {
    assert_eq!(map_path(b"example.com", b"/a/b/").segments, segs(&["a", "b", "index.html"]));
}

#[test]
fn traversal_segments_are_dropped() {
    assert_eq!(
        map_path(b"example.com", b"/a/../../etc/passwd").segments,
        segs(&["a", "etc", "passwd"])
    );
    assert_eq!(map_path(b"example.com", b"/./x//y").segments, segs(&["x", "y"]));
    assert_eq!(map_path(b"h", b"/../..").segments, segs(&["h.html"]));
    assert_eq!(map_path(b"h", b"/../").segments, segs(&["h.html"]));
}

#[test]
fn host_slashes_are_neutralized() {
    assert_eq!(map_path(b"a/b", b"/").segments, segs(&["a_b.html"]));
    assert_eq!(map_path(b"", b"/").segments, segs(&[".html"]));
}

#[test]
fn mapping_is_deterministic() {
    let a = map_path(b"example.com", b"/docs/guide/");
    let b = map_path(b"example.com", b"/docs/guide/");
    assert_eq!(a.segments, b.segments);
    let c = map_url(b"https://example.com/docs/guide/?q=1#top").unwrap_or_else(|| panic!("no path"));
    let d = map_url(b"https://example.com/docs/guide/?q=1#top").unwrap_or_else(|| panic!("no path"));
    assert_eq!(c.segments, d.segments);
    assert_eq!(c.segments, a.segments);
}

#[test]
fn no_segment_escapes() {
    for path in [&b"/../../x"[..], b"/a/./../b/", b"//", b"/..", b"/.../x"] {
        let m = map_path(b"example.com", path);
        assert!(!m.segments.is_empty());
        for s in &m.segments {
            assert!(!s.is_empty());
            assert_ne!(s.as_slice(), b"..");
            assert_ne!(s.as_slice(), b".");
            assert!(!s.contains(&b'/'));
        }
    }
    assert_eq!(map_path(b"h", b"/.../x").segments, segs(&["...", "x"]));
}

#[test]
fn split_counts_every_slash() {
    assert_eq!(split_path(b""), segs(&[""]));
    assert_eq!(split_path(b"/"), segs(&["", ""]));
    assert_eq!(split_path(b"/a//b"), segs(&["", "a", "", "b"]));
    assert!(is_kept(b"a"));
    assert!(!is_kept(b""));
    assert!(!is_kept(b"."));
    assert!(!is_kept(b".."));
    assert!(is_kept(b"..."));
}

#[test]
fn url_maps_through_its_host_and_path() {
    let m = map_url(b"https://example.com/docs/").unwrap_or_else(|| panic!("no path"));
    assert_eq!(m.segments, segs(&["docs", "index.html"]));
    let r = map_url(b"https://example.com").unwrap_or_else(|| panic!("no path"));
    assert_eq!(r.segments, segs(&["example.com.html"]));
    assert!(map_url(b"not an address").is_none());
    assert!(map_url(&[0xff, 0xfe]).is_none());
}

#[test]
fn address_without_host_maps_by_its_path() {
    let m = map_url(b"file:///a/b").unwrap_or_else(|| panic!("no path"));
    assert_eq!(m.segments, segs(&["a", "b"]));
    let r = map_url(b"file:///").unwrap_or_else(|| panic!("no path"));
    assert_eq!(r.segments, segs(&[".html"]));
}

#[test]
fn file_name_is_last_segment() {
    assert_eq!(map_path(b"h", b"/a/b.txt").file_name(), b"b.txt".to_vec());
    assert_eq!(default_file_name(b"https://example.com/a/b.txt"), Some(b"b.txt".to_vec()));
    assert_eq!(default_file_name(b"https://example.com/"), Some(b"example.com.html".to_vec()));
    assert_eq!(default_file_name(b"::"), None);
}

#[test]
fn scheme_is_added_when_missing() {
    assert_eq!(https_check(b"example.com".to_vec()), b"https://example.com".to_vec());
    assert_eq!(https_check(b"http://example.com".to_vec()), b"http://example.com".to_vec());
    assert_eq!(https_check(b"https://example.com".to_vec()), b"https://example.com".to_vec());
    assert_eq!(https_check(b"".to_vec()), b"https://".to_vec());
    assert_eq!(https_check(b"x?u=http://y".to_vec()), b"x?u=http://y".to_vec());
    assert_eq!(https_check(b"ftp://x".to_vec()), b"https://ftp://x".to_vec());
}

#[test]
fn canonical_cuts_the_fragment() {
    assert_eq!(canonical(b"http://x/a#1"), b"http://x/a".to_vec());
    assert_eq!(canonical(b"http://x/a#1#2"), b"http://x/a".to_vec());
    assert_eq!(canonical(b"http://x/a"), b"http://x/a".to_vec());
    assert_eq!(canonical(b"#"), b"".to_vec());
    assert_eq!(canonical(b""), b"".to_vec());
}

#[test]
fn web_addresses_start_with_a_web_scheme() {
    assert!(starts_web(b"http://x"));
    assert!(starts_web(b"https://x"));
    assert!(!starts_web(b"mailto:a@b"));
    assert!(!starts_web(b"xhttp://x"));
    assert!(!starts_web(b"http:/"));
}
