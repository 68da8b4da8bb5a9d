use none_shall_pass::connection::{default_response, judge, Fetch, Response};
use none_shall_pass::lookup::Hyperlink;
use none_shall_pass::runner::exclusions;

fn link(text: &str, url: &str) -> Hyperlink {
    Hyperlink::new(text.to_string(), url.to_string())
}

fn none() -> Vec<String> {
    Vec::new()
}

#[test]
fn success_status_is_valid() {
    let r = judge(&link("a", "https://x"), &none(), &Fetch::Status(200, "200 OK".to_string()));
    assert!(r.ok);
    assert_eq!(r.response, "");
    let r = judge(&link("a", "https://x"), &none(), &Fetch::Status(399, "399 <unknown status code>".to_string()));
    assert!(r.ok);
}

#[test]
fn not_found_is_reported() {
    let r = judge(&link("a", "https://x/y"), &none(), &Fetch::Status(404, "404 Not Found".to_string()));
    assert!(!r.ok);
    assert_eq!(r.response, "'a: https://x/y' resolved but returned '404 Not Found'");
}

#[test]
fn status_400_is_reported() {
    let r = judge(&link("a", "u"), &none(), &Fetch::Status(400, "400 Bad Request".to_string()));
    assert!(!r.ok);
}

#[test]
fn forbidden_and_too_many_requests_are_tolerated() {
    for code in [403u16, 429u16] {
        let r = judge(&link("a", "u"), &none(), &Fetch::Status(code, "x".to_string()));
        assert!(r.ok);
        assert_eq!(r.response, "");
    }
}

#[test]
fn failure_to_resolve_is_reported() {
    let r = judge(&link("t", "https://nowhere"), &none(), &Fetch::Failed("\"dns error\"".to_string()));
    assert!(!r.ok);
    assert_eq!(r.response, "'t: https://nowhere' failed to resolve - \"dns error\"");
}

#[test]
fn excluded_url_is_valid() {
    let ex = vec!["example.org".to_string()];
    let r = judge(&link("t", "https://example.org/a"), &ex, &Fetch::Failed("e".to_string()));
    assert!(r.ok);
    assert_eq!(r.response, "");
    let r = judge(&link("t", "https://example.com/a"), &ex, &Fetch::Status(500, "500 Internal Server Error".to_string()));
    assert!(!r.ok);
}

#[test]
fn local_hosts_are_never_failures() {
    let ex = exclusions(&vec!["extra.host".to_string()]);
    for url in ["http://localhost:8080", "http://127.0.0.1/x", "http://0.0.0.0", "https://extra.host/p"] {
        let r = judge(&link("t", url), &ex, &Fetch::Failed("e".to_string()));
        assert!(r.ok, "{}", url);
    }
}

#[test]
fn empty_exclusion_matches_everything() {
    let ex = vec![String::new()];
    assert!(judge(&link("t", "u"), &ex, &Fetch::Failed("e".to_string())).ok);
}

#[test]
fn default_response_is_empty_and_not_ok() {
    assert_eq!(default_response(), "");
    let r = Response::default();
    assert!(!r.ok);
    assert_eq!(r.response, "");
}
