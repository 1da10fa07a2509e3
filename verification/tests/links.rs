use wiki_path::links::{extract_links, find, has_at, is_excluded};

fn text(links: &[Vec<u8>]) -> Vec<String> {
    links.iter().map(|l| String::from_utf8(l.clone()).unwrap()).collect()
}

#[test]
fn page_without_content_has_no_links() {
    let html = b"<html><a href=\"/wiki/Rust\">Rust</a></html>";
    assert!(extract_links(html).is_empty());
    assert!(extract_links(b"").is_empty());
}

#[test]
fn links_come_in_order_of_appearance() {
    let html = b"<a href=\"/wiki/Before\">x</a><div id=\"mw-content-text\" class=\"c\">\
        <a href=\"/wiki/Mountain_Dew\">a</a> text <a href=\"/wiki/Dab_(dance)\" title=\"t\">b</a>\
        <a href=\"/wiki/Mountain_Dew\">again</a></div>";
    assert_eq!(
        text(&extract_links(html)),
        vec![
            "https://en.wikipedia.org/wiki/Mountain_Dew",
            "https://en.wikipedia.org/wiki/Dab_(dance)",
            "https://en.wikipedia.org/wiki/Mountain_Dew",
        ]
    );
}

#[test]
fn excluded_namespaces_are_dropped() {
    let mut html = b"<div id=\"mw-content-text\">".to_vec();
    for name in [
        "File:A.png",
        "Kept",
        "Category:B",
        "Special:C",
        "Talk:D",
        "Wikipedia:E",
        "Template:F",
        "Portal:G",
        "Help:H",
        "Filed",
        "help:lower",
        "User:Kept_too",
    ] {
        html.extend_from_slice(b"<a href=\"/wiki/");
        html.extend_from_slice(name.as_bytes());
        html.extend_from_slice(b"\">x</a>");
    }
    assert_eq!(
        text(&extract_links(&html)),
        vec![
            "https://en.wikipedia.org/wiki/Kept",
            "https://en.wikipedia.org/wiki/Filed",
            "https://en.wikipedia.org/wiki/help:lower",
            "https://en.wikipedia.org/wiki/User:Kept_too",
        ]
    );
}

#[test]
fn other_links_are_not_articles() {
    let html = b"<div id=\"mw-content-text\"><a href=\"https://example.org/wiki/X\">x</a>\
        <a href=\"/w/index.php\">y</a><a  href=\"/wiki/Spaced\">z</a><a href=\"/wiki/\">e</a>";
    assert_eq!(text(&extract_links(html)), vec!["https://en.wikipedia.org/wiki/"]);
}

#[test]
fn unclosed_last_link_is_left_out() {
    let html = b"<div id=\"mw-content-text\"><a href=\"/wiki/One\">1</a><a href=\"/wiki/Two";
    assert_eq!(text(&extract_links(html)), vec!["https://en.wikipedia.org/wiki/One"]);
}

#[test]
fn non_ascii_names_are_kept_whole() {
    let html = "<div id=\"mw-content-text\">é<a href=\"/wiki/Caf\u{e9}\">c</a>".as_bytes();
    assert_eq!(text(&extract_links(html)), vec!["https://en.wikipedia.org/wiki/Caf\u{e9}"]);
}

#[test]
fn find_gives_the_first_match() {
    assert_eq!(find(b"abcabc", b"bc", 0), Some(1));
    assert_eq!(find(b"abcabc", b"bc", 1), Some(1));
    assert_eq!(find(b"abcabc", b"bc", 2), Some(4));
    assert_eq!(find(b"abcabc", b"bc", 5), None);
    assert_eq!(find(b"abcabc", b"bc", 100), None);
    assert_eq!(find(b"abc", b"abcd", 0), None);
    assert_eq!(find(b"abc", b"d", 0), None);
    assert_eq!(find(b"aab", b"ab", 0), Some(1));
}

#[test]
fn has_at_compares_in_place() {
    assert!(has_at(b"hello", b"ell", 1));
    assert!(!has_at(b"hello", b"ell", 0));
    assert!(!has_at(b"hello", b"lo", 4));
    assert!(has_at(b"hello", b"lo", 3));
    assert!(!has_at(b"hello", b"lo", usize::MAX));
    assert!(!has_at(b"he", b"hello", 0));
}

#[test]
fn excluded_is_by_prefix() {
    assert!(is_excluded(b"File:x"));
    assert!(is_excluded(b"Help:"));
    assert!(!is_excluded(b"Help"));
    assert!(!is_excluded(b"A_File:x"));
    assert!(!is_excluded(b""));
}
