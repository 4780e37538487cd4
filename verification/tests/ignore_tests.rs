use disk_scout::ignore::{glob_matches, parse_ignore_rules, IgnoreConfig, IgnoreMatcher};

fn chars(s: &str) -> Vec<char> {
    s.chars().collect()
}

fn glob(p: &str, s: &str) -> bool {
    glob_matches(&chars(p), &chars(s))
}

#[test]
fn glob_star_and_question_mark() {
    assert!(glob("*.log", "app.log"));
    assert!(glob("*.log", ".log"));
    assert!(!glob("*.log", "app.log.1"));
    assert!(glob("target/*", "target/debug/x"));
    assert!(!glob("target/*", "target"));
    assert!(glob("a?c", "abc"));
    assert!(!glob("a?c", "ac"));
    assert!(glob("*", ""));
    assert!(glob("", ""));
    assert!(!glob("", "x"));
    assert!(glob("**a*", "bab"));
    assert!(glob("exact", "exact"));
    assert!(!glob("exact", "exacT"));
}

#[test]
fn ignore_file_skips_blank_lines_and_comments() {
    let rules = parse_ignore_rules("# build outputs\ntarget/*\n\n  *.log  \r\n   # indented comment\n*.tmp");
    let rules: Vec<String> = rules.iter().map(|r| r.iter().collect()).collect();
    assert_eq!(rules, vec!["target/*", "*.log", "*.tmp"]);
}

#[test]
fn ignore_file_of_only_comments_has_no_rules() {
    assert!(parse_ignore_rules("").is_empty());
    assert!(parse_ignore_rules("\n\n# x\n").is_empty());
}

#[test]
fn matcher_combines_both_sources() {
    let config = IgnoreConfig {
        patterns: vec!["*.tmp".to_string()],
        ignore_file: Some("/root/.disk-scout-ignore".to_string()),
    };
    let m = IgnoreMatcher::from_config(&config, Some("# comment\nskip/*\n"), Some(".disk-scout-ignore"));
    assert!(m.is_ignored_path("skip/ignored.bin", Some("ignored.bin")));
    assert!(m.is_ignored_path("keep/x.tmp", Some("x.tmp")));
    assert!(m.is_ignored_path(".disk-scout-ignore", Some(".disk-scout-ignore")));
    assert!(!m.is_ignored_path("keep/big.bin", Some("big.bin")));
    assert!(!m.is_ignored_path("skip", Some("skip")));
}

#[test]
fn patterns_match_the_name_too() {
    let config = IgnoreConfig {
        patterns: vec!["*.log".to_string()],
        ignore_file: None,
    };
    let m = IgnoreMatcher::from_config(&config, None, None);
    assert!(m.is_ignored_path("a/b/c.log", Some("c.log")));
    assert!(m.is_ignored_path("a/b/c.log", None));
    assert!(!m.is_ignored_path("a/b/c.txt", Some("c.txt")));
}

#[test]
fn comment_only_file_matches_like_no_file() {
    let config = IgnoreConfig { patterns: vec!["*.tmp".to_string()], ignore_file: None };
    let with_file = IgnoreMatcher::from_config(&config, Some("# nothing\n\n   # here\n  \n"), None);
    let without = IgnoreMatcher::from_config(&config, None, None);
    for (rel, name) in [("a.tmp", Some("a.tmp")), ("d/x.log", Some("x.log")), ("# nothing", None), ("d", Some("d"))] {
        assert_eq!(with_file.is_ignored_path(rel, name), without.is_ignored_path(rel, name), "{rel}");
    }
}
