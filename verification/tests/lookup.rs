use std::collections::HashMap;

use none_shall_pass::lookup::{find_md_links, footnote_numbers_fit, Hyperlink};
use regex::Regex;

fn pairs(v: &[(&str, &str)]) -> Vec<(String, String)> {
    v.iter().map(|(a, b)| (a.to_string(), b.to_string())).collect()
}

/// The links as the four regular expressions find them, footnote links in
/// the order of the map that holds them.
fn with_regex(markdown: &str) -> Vec<(String, String)> {
    let inline = Regex::new(r"\[([^\]]+)\]\(([^)]+)\)").unwrap();
    let anchored = Regex::new(r"\[([^\]]+)\]:\s+(\S+)").unwrap();
    let foot_text = Regex::new(r"\[([^\]]+)\]\[(\d+)\]").unwrap();
    let foot_url = Regex::new(r"\[(\d+)\]:\s+(\S+)").unwrap();
    let mut links = Vec::new();
    for caps in inline.captures_iter(markdown) {
        links.push((caps[1].to_string(), caps[2].to_string()));
    }
    for caps in anchored.captures_iter(markdown) {
        links.push((caps[1].to_string(), caps[2].to_string()));
    }
    let mut texts = HashMap::new();
    let mut urls = HashMap::new();
    for caps in foot_text.captures_iter(markdown) {
        let n: usize = caps[2].parse().unwrap();
        texts.insert(n, caps[1].to_string());
    }
    for caps in foot_url.captures_iter(markdown) {
        let n: usize = caps[1].parse().unwrap();
        urls.insert(n, caps[2].to_string());
    }
    for (k, v) in texts.iter() {
        if let Some(u) = urls.get(k) {
            links.push((v.to_string(), u.to_string()));
        }
    }
    links
}

fn sorted(mut v: Vec<(String, String)>) -> Vec<(String, String)> {
    v.sort();
    v
}

#[test]
fn inline_link_is_found() {
    assert_eq!(find_md_links("see [docs](https://example.com/docs) here"), pairs(&[("docs", "https://example.com/docs")]));
}

#[test]
fn anchored_link_is_found() {
    assert_eq!(find_md_links("[home]:   https://example.com\n"), pairs(&[("home", "https://example.com")]));
}

#[test]
fn kinds_come_in_order_inline_anchored_footnote() {
    let md = "[f][1] and [a](http://a)\n[b]: http://b\n[1]: http://f\n";
    assert_eq!(
        find_md_links(md),
        pairs(&[("a", "http://a"), ("b", "http://b"), ("1", "http://f"), ("f", "http://f")])
    );
}

#[test]
fn footnote_last_definition_wins() {
    let md = "[x][2] [y][2]\n[2]: http://one\n[2]: http://two\n";
    let links = find_md_links(md);
    assert!(links.contains(&("y".to_string(), "http://two".to_string())));
    assert!(!links.contains(&("x".to_string(), "http://two".to_string())));
    assert!(!links.iter().any(|(t, _)| t == "x"));
}

#[test]
fn footnote_numbers_compare_by_value() {
    let md = "[x][007]\n[7]: http://seven\n";
    let links = find_md_links(md);
    assert_eq!(links.last().unwrap(), &("x".to_string(), "http://seven".to_string()));
}

#[test]
fn footnote_without_target_is_dropped() {
    let md = "[x][3]\n";
    assert_eq!(find_md_links(md), Vec::<(String, String)>::new());
}

#[test]
fn empty_text_or_url_is_no_link() {
    assert_eq!(find_md_links("[](http://x) [a]() [b]:\n"), Vec::<(String, String)>::new());
}

#[test]
fn unclosed_link_is_no_link() {
    assert_eq!(find_md_links("[a](http://x"), Vec::<(String, String)>::new());
}

#[test]
fn link_text_may_span_lines_and_hold_brackets() {
    assert_eq!(find_md_links("[a[b\nc](u v)"), pairs(&[("a[b\nc", "u v")]));
}

#[test]
fn unicode_space_separates_anchored_target() {
    assert_eq!(find_md_links("[a]:\u{a0}\u{2003}http://x\u{3000}rest"), pairs(&[("a", "http://x")]));
}

#[test]
fn matches_do_not_overlap() {
    assert_eq!(find_md_links("[a](b)(c)[d](e)"), pairs(&[("a", "b"), ("d", "e")]));
}

#[test]
fn single_inline_link_round_trips() {
    let t = "some [text";
    let u = "https://example.com/a b";
    let md = format!("[{}]({})", t, u);
    assert_eq!(find_md_links(&md), pairs(&[(t, u)]));
}

#[test]
fn every_link_found_is_non_empty() {
    let md = "[a](b) [c]: d [e][1] [1]: f [g][2]";
    for (t, u) in find_md_links(md) {
        assert!(!t.is_empty());
        assert!(!u.is_empty());
    }
}

#[test]
fn agrees_with_the_regular_expressions() {
    let samples = [
        "",
        "plain text",
        "# Title\n\nSee [the docs](https://docs.rs) and [crates](https://crates.io).\n",
        "[ref]: https://example.com\n[other]:\thttps://example.org/x?y=1\n",
        "Footnote [here][1] and [there][2].\n\n[1]: https://one.example\n[2]: https://two.example\n",
        "[a](b)[c](d) [e]: f [g][10] [10]: h [i][10]",
        "nested [a [b](c)](d) and [x]: \n y",
        "[élan](https://exämple.com/ü) [日本][3]\n[3]:\u{2003}https://jp.example",
        "[a]:b [c]:  [d]: e\r\nf",
        "[[1]][1]\n[1]: u\n[[2]: v",
        "[x](y) [x](y) [1]: z [w][1] [w][1]",
    ];
    for md in samples.iter() {
        assert!(footnote_numbers_fit(md));
        assert_eq!(sorted(find_md_links(md)), sorted(with_regex(md)), "on {:?}", md);
    }
}

#[test]
fn inline_and_anchored_order_agrees_with_the_regular_expressions() {
    let md = "[a](1) [b]: 2 [c](3) [d]: 4";
    assert_eq!(find_md_links(md), with_regex(md));
}

#[test]
fn oversized_footnote_number_does_not_fit() {
    assert!(!footnote_numbers_fit("[x][99999999999999999999999999]"));
    assert!(!footnote_numbers_fit("[99999999999999999999999999]: http://x"));
    assert!(footnote_numbers_fit("[x][12] [12]: http://x"));
}

#[test]
fn hyperlink_default_is_empty() {
    let h = Hyperlink::default();
    assert_eq!(h.text, "");
    assert_eq!(h.url, "");
    let c = Hyperlink::new("t".to_string(), "u".to_string()).clone();
    assert_eq!((c.text.as_str(), c.url.as_str()), ("t", "u"));
}

#[test]
fn inline_links_stand_in_the_text() {
    let md = "a [b](c) [d [e](f g) [h]: i";
    for (t, u) in find_md_links(md).into_iter().take(2) {
        assert!(md.contains(&format!("[{}]({})", t, u)));
    }
}

#[test]
fn footnote_links_join_one_number() {
    let md = "[p][1] [q][2]\n[2]: http://two\n[1]: http://one\n";
    let links = find_md_links(md);
    let foot: Vec<_> = links.into_iter().skip(2).collect();
    assert_eq!(foot, pairs(&[("p", "http://one"), ("q", "http://two")]));
}
