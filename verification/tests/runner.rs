use none_shall_pass::connection::Response;
use none_shall_pass::files::markdown_pattern;
use none_shall_pass::lookup::Hyperlink;
use none_shall_pass::runner::{
    actions_flag, clone_command, collect_results, exclusions, jsonify, read_failure, wants_summary,
    wiki_name,
};
use none_shall_pass::squire::{exit_status, parse_exit_code, unwrap, Counter};

fn link(text: &str, url: &str) -> Hyperlink {
    Hyperlink::new(text.to_string(), url.to_string())
}

fn resp(ok: bool) -> Option<Response> {
    Some(Response { ok, response: String::new() })
}

#[test]
fn results_count_every_link_and_keep_failures() {
    let links = vec![link("a", "u1"), link("b", "u2"), link("c", "u3")];
    let responses = vec![resp(true), resp(false), resp(false)];
    let mut counter = Counter::new();
    let r = collect_results("dir/sub/readme.md", &links, &responses, &mut counter);
    assert_eq!(r.count, 3);
    assert_eq!(r.errors.len(), 2);
    assert_eq!(r.errors[0].len(), 1);
    assert_eq!(r.errors[0][0].0, "readme.md");
    assert_eq!(r.errors[0][0].1.text, "b");
    assert_eq!(r.errors[1][0].1.url, "u3");
    assert_eq!(counter.success(), 1);
    assert_eq!(counter.failed(), 2);
    assert_eq!(unwrap(&counter), (1, 2, 3));
    assert_eq!(r.errors.len() + counter.success() as usize, r.count as usize);
}

#[test]
fn counter_accumulates_across_files() {
    let mut counter = Counter::new();
    collect_results("a.md", &vec![link("a", "u")], &vec![resp(true)], &mut counter);
    collect_results("b.md", &vec![link("b", "v"), link("c", "w")], &vec![resp(false), resp(true)], &mut counter);
    assert_eq!(unwrap(&counter), (2, 1, 3));
}

#[test]
fn empty_counter_unwraps_to_zero() {
    assert_eq!(unwrap(&Counter::new()), (0, 0, 0));
    let mut c = Counter::new();
    c.record(false);
    assert_eq!(unwrap(&c), (0, 1, 1));
}

#[test]
fn unreadable_file_is_one_failure() {
    let r = read_failure("docs/x.md");
    assert_eq!(r.count, 0);
    assert_eq!(r.errors.len(), 1);
    assert_eq!(r.errors[0][0].0, "docs/x.md");
    assert_eq!(r.errors[0][0].1.text, "");
}

#[test]
fn exclusions_start_with_local_hosts() {
    let ex = exclusions(&vec!["a.com".to_string()]);
    assert_eq!(ex, vec!["localhost", "127.0.0.1", "0.0.0.0", "a.com"]);
}

#[test]
fn wiki_names() {
    let w = wiki_name("repo");
    assert_eq!(w, "repo.wiki");
    assert_eq!(clone_command("me", &w), "git clone https://github.com/me/repo.wiki.git");
}

#[test]
fn actions_flag_reads_exact_booleans() {
    assert_eq!(actions_flag("true"), Some(true));
    assert_eq!(actions_flag("false"), Some(false));
    assert_eq!(actions_flag("True"), None);
    assert_eq!(actions_flag(""), None);
}

#[test]
fn summary_only_for_actions_with_failures() {
    assert!(wants_summary(Some(true), 2));
    assert!(!wants_summary(Some(true), 0));
    assert!(!wants_summary(Some(false), 2));
    assert!(!wants_summary(None, 2));
}

#[test]
fn jsonify_gives_one_record_per_failure() {
    let data = vec![vec![("f.md".to_string(), link("t", "u"))], Vec::new()];
    let out = jsonify(data);
    assert_eq!(out.len(), 2);
    assert_eq!(
        out[0],
        vec![
            ("filename".to_string(), "f.md".to_string()),
            ("text".to_string(), "t".to_string()),
            ("url".to_string(), "u".to_string())
        ]
    );
    assert!(out[1].is_empty());
}

#[test]
fn markdown_pattern_is_recursive() {
    assert_eq!(markdown_pattern("/home/me"), "/home/me/**/*.md");
}

#[test]
fn exit_codes() {
    assert_eq!(parse_exit_code("1"), 1);
    assert_eq!(parse_exit_code("+3"), 3);
    assert_eq!(parse_exit_code("-7"), -7);
    assert_eq!(parse_exit_code("2147483647"), 2147483647);
    assert_eq!(parse_exit_code("-2147483648"), -2147483648);
    assert_eq!(parse_exit_code("2147483648"), 0);
    assert_eq!(parse_exit_code("99999999999999999999999"), 0);
    assert_eq!(parse_exit_code(""), 0);
    assert_eq!(parse_exit_code("-"), 0);
    assert_eq!(parse_exit_code("1a"), 0);
    assert_eq!(parse_exit_code(" 1"), 0);
}

#[test]
fn no_failures_when_every_link_is_valid() {
    let links = vec![link("a", "u"), link("b", "v")];
    let mut counter = Counter::new();
    let r = collect_results("f.md", &links, &vec![resp(true), resp(true)], &mut counter);
    assert!(r.errors.is_empty());
    let r = collect_results("f.md", &links, &vec![resp(true), resp(false)], &mut counter);
    assert!(!r.errors.is_empty());
}

#[test]
fn link_without_response_is_only_counted() {
    let links = vec![link("a", "u"), link("b", "v"), link("c", "w")];
    let mut counter = Counter::new();
    let r = collect_results("f.md", &links, &vec![resp(false), None, resp(true)], &mut counter);
    assert_eq!(r.count, 3);
    assert_eq!(r.errors.len(), 1);
    assert_eq!(r.errors[0][0].1.text, "a");
    assert_eq!(unwrap(&counter), (1, 1, 2));
}

#[test]
fn exit_status_follows_failures() {
    assert_eq!(exit_status(0, false), 0);
    assert_eq!(exit_status(3, false), 1);
    assert_eq!(exit_status(0, true), 1);
    let mut counter = Counter::new();
    collect_results("f.md", &vec![link("a", "u")], &vec![resp(false)], &mut counter);
    assert_eq!(exit_status(counter.failed(), false), 1);
}
