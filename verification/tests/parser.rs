use none_shall_pass::parser::{arguments, Parsed};

fn args(v: &[&str]) -> Vec<String> {
    v.iter().map(|s| s.to_string()).collect()
}

#[test]
fn full_command_line_is_read() {
    match arguments(&args(&["nsp", "--owner", "me", "--repo", "r", "--debug", "true", "--exclude", " a  b c "])) {
        Parsed::Run(a) => {
            assert_eq!(a.owner, "me");
            assert_eq!(a.repo, "r");
            assert!(a.debug);
            assert_eq!(a.exclude, vec!["a".to_string(), "b".to_string(), "c".to_string()]);
        },
        _ => panic!("expected a run"),
    }
}

#[test]
fn debug_values() {
    for (v, want) in [("true", true), ("1", true), ("yes", false), ("TRUE", false), ("0", false)] {
        match arguments(&args(&["p", "--owner", "o", "--repo", "r", "--debug", v])) {
            Parsed::Run(a) => assert_eq!(a.debug, want, "{}", v),
            _ => panic!("expected a run"),
        }
    }
}

#[test]
fn last_value_wins_and_no_exclusions_by_default() {
    match arguments(&args(&["p", "--owner", "a", "--owner", "b", "--repo", "r"])) {
        Parsed::Run(a) => {
            assert_eq!(a.owner, "b");
            assert!(a.exclude.is_empty());
            assert!(!a.debug);
        },
        _ => panic!("expected a run"),
    }
}

#[test]
fn help_stops_at_once() {
    assert!(matches!(arguments(&args(&["p", "--help", "--bogus"])), Parsed::Help));
    assert!(matches!(arguments(&args(&["p", "-h"])), Parsed::Help));
}

#[test]
fn errors_before_help_win() {
    assert!(matches!(arguments(&args(&["p", "--bogus", "-h"])), Parsed::Unknown(a) if a == "--bogus"));
}

#[test]
fn version_is_read_to_the_end() {
    assert!(matches!(arguments(&args(&["p", "-v", "--owner", "o"])), Parsed::Version));
    assert!(matches!(arguments(&args(&["p", "--version", "--bogus"])), Parsed::Unknown(_)));
    assert!(matches!(arguments(&args(&["p", "-V", "-h"])), Parsed::Help));
}

#[test]
fn missing_value_names_the_flag() {
    assert!(matches!(arguments(&args(&["p", "--owner", "o", "--repo"])), Parsed::MissingValue(f) if f == "--repo"));
    assert!(matches!(arguments(&args(&["p", "--debug"])), Parsed::MissingValue(f) if f == "--debug"));
}

#[test]
fn owner_and_repo_are_mandatory() {
    assert!(matches!(arguments(&args(&["p", "--owner", "o"])), Parsed::MissingOwnerOrRepo));
    assert!(matches!(arguments(&args(&["p", "--owner", "", "--repo", "r"])), Parsed::MissingOwnerOrRepo));
    assert!(matches!(arguments(&args(&["p"])), Parsed::MissingOwnerOrRepo));
    assert!(matches!(arguments(&args(&[])), Parsed::MissingOwnerOrRepo));
}
