use clh_client::add::{check_ignore, decide_ignore, should_ignore, try_pattern, IgnorePattern, PatternOutcome};
use clh_client::config::{AddConfig, Config, SearchConfig, ServerConfig};

fn make_config(patterns: Vec<&str>) -> Config {
    Config {
        server: ServerConfig {
            url: "http://localhost".to_string(),
            basic_auth_user: None,
            basic_auth_password: None,
        },
        search: SearchConfig::default(),
        add: AddConfig {
            ignore_patterns: patterns.into_iter().map(str::to_string).collect(),
        },
    }
}

#[test]
fn ignore_matching_command() {
    let cfg = make_config(vec!["^ls", "^cd "]);
    assert!(should_ignore(&cfg, "ls -la"));
    assert!(should_ignore(&cfg, "cd /tmp"));
}

#[test]
fn allow_non_matching_command() {
    let cfg = make_config(vec!["^ls", "^cd "]);
    assert!(!should_ignore(&cfg, "git status"));
    assert!(!should_ignore(&cfg, "cargo build"));
}

#[test]
fn empty_patterns_allows_all() {
    let cfg = make_config(vec![]);
    assert!(!should_ignore(&cfg, "ls -la"));
}

#[test]
fn invalid_pattern_is_skipped() {
    let cfg = make_config(vec!["[invalid"]);
    // Should not panic; invalid pattern is ignored
    assert!(!should_ignore(&cfg, "ls"));
}

#[test]
fn invalid_patterns_before_a_match_are_reported() {
    let patterns: Vec<String> = vec!["[bad".into(), "^git".into(), "(also bad".into()];
    let check = check_ignore(&patterns, "git status");
    assert!(check.ignored);
    assert_eq!(check.invalid.len(), 1);
    assert_eq!(check.invalid[0].pattern, "[bad");
    let check = check_ignore(&patterns, "ls");
    assert!(!check.ignored);
    let names: Vec<&str> = check.invalid.iter().map(|e| e.pattern.as_str()).collect();
    assert_eq!(names, vec!["[bad", "(also bad"]);
}

#[test]
fn compiled_pattern_matches_anywhere() {
    let p = match IgnorePattern::compile("secret") {
        Ok(p) => p,
        Err(_) => panic!("pattern must compile"),
    };
    assert!(p.is_match("export TOKEN=secret"));
    assert!(!p.is_match("echo hi"));
    assert!(IgnorePattern::compile("(").is_err());
}

#[test]
fn decision_stops_at_first_match() {
    let bad = match try_pattern("[x", "ls") {
        PatternOutcome::Invalid(e) => e,
        _ => panic!("pattern must be invalid"),
    };
    assert!(matches!(try_pattern("^ls", "ls -la"), PatternOutcome::Match));
    assert!(matches!(try_pattern("^ls", "cd"), PatternOutcome::NoMatch));
    let check = decide_ignore(vec![PatternOutcome::NoMatch, PatternOutcome::Invalid(bad), PatternOutcome::Match]);
    assert!(check.ignored);
    assert_eq!(check.invalid.len(), 1);
    assert_eq!(check.invalid[0].pattern, "[x");
    let check = decide_ignore(vec![PatternOutcome::NoMatch]);
    assert!(!check.ignored);
    assert!(check.invalid.is_empty());
}
