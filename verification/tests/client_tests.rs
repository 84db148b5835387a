use clh_client::client::{
    base_url, basic_auth, delete_url, i32_text, next_page_offset, page_request, parse_count,
    parse_total_count, post_history, usize_text,
};
use clh_client::config::{AddConfig, Config, SearchConfig, ServerConfig, DEFAULT_PAGE_SIZE};

fn make_config(url: &str, user: Option<&str>, password: Option<&str>) -> Config {
    Config {
        server: ServerConfig {
            url: url.to_string(),
            basic_auth_user: user.map(str::to_string),
            basic_auth_password: password.map(str::to_string),
        },
        search: SearchConfig {
            hostname: None,
            page_size: 2,
            dedup: true,
            height: "100%".to_string(),
        },
        add: AddConfig::default(),
    }
}

fn pairs(v: &[(String, String)]) -> Vec<(&str, &str)> {
    v.iter().map(|(a, b)| (a.as_str(), b.as_str())).collect()
}

#[test]
fn post_history_builds_form_for_base_url() {
    let cfg = make_config("https://clh.example.com//", Some("u"), Some("p"));
    let req = post_history(&cfg, "host", "/tmp", "ls -la");
    assert_eq!(req.url, "https://clh.example.com");
    assert_eq!(
        pairs(&req.form),
        vec![("hostname", "host"), ("working_directory", "/tmp"), ("command", "ls -la")]
    );
    let auth = req.auth.unwrap();
    assert_eq!(auth.user, "u");
    assert_eq!(auth.password.as_deref(), Some("p"));
}

#[test]
fn basic_auth_follows_configured_credentials() {
    let user_only = make_config("http://x", Some("u"), None);
    let a = basic_auth(&user_only.server).unwrap();
    assert_eq!(a.user, "u");
    assert!(a.password.is_none());
    let password_only = make_config("http://x", None, Some("p"));
    assert!(basic_auth(&password_only.server).is_none());
    let none = make_config("http://x", None, None);
    assert!(basic_auth(&none.server).is_none());
}

#[test]
fn first_page_request_asks_limit_and_offset() {
    let cfg = make_config("http://127.0.0.1:1234/", None, None);
    let req = page_request(&cfg, None, 0, 2);
    assert_eq!(req.url, "http://127.0.0.1:1234");
    assert_eq!(pairs(&req.query), vec![("limit", "2"), ("offset", "0")]);
    assert!(req.auth.is_none());
}

#[test]
fn page_request_adds_host_and_directory_filters() {
    let mut cfg = make_config("http://h", None, None);
    cfg.search.hostname = Some("my-machine".to_string());
    let req = page_request(&cfg, Some("/home/u"), 1000, 250);
    assert_eq!(
        pairs(&req.query),
        vec![("limit", "250"), ("offset", "1000"), ("hostname", "my-machine"), ("pwd", "/home/u")]
    );
}

#[test]
fn pagination_without_total_count_fetches_one_page() {
    assert_eq!(next_page_offset(0, 2, None), None);
}

#[test]
fn pagination_with_total_count_fetches_remaining_pages() {
    // page size 2, total 3: pages at offsets 0 and 2
    assert_eq!(next_page_offset(0, 2, Some(3)), Some(2));
    assert_eq!(next_page_offset(2, 2, Some(3)), None);
    // exact multiple: total 4 → offsets 0, 2
    assert_eq!(next_page_offset(2, 2, Some(4)), None);
    // total 0 → only the first request
    assert_eq!(next_page_offset(0, 2, Some(0)), None);
    let mut offsets = vec![0usize];
    let mut cur = 0usize;
    while let Some(next) = next_page_offset(cur, 1000, Some(3500)) {
        offsets.push(next);
        cur = next;
    }
    assert_eq!(offsets, vec![0, 1000, 2000, 3000]);
}

#[test]
fn total_count_header_is_parsed_like_usize() {
    assert_eq!(parse_total_count(Some("3")), Some(3));
    assert_eq!(parse_total_count(Some("+42")), Some(42));
    assert_eq!(parse_total_count(Some("007")), Some(7));
    assert_eq!(parse_total_count(None), None);
    for bad in ["", "+", "-", "-1", "1.5", " 3", "abc", "99999999999999999999999"] {
        assert_eq!(parse_count(bad), bad.parse::<usize>().ok(), "{:?}", bad);
    }
    assert_eq!(parse_count("18446744073709551615"), "18446744073709551615".parse::<usize>().ok());
}

#[test]
fn numbers_are_written_in_decimal() {
    assert_eq!(usize_text(0), "0");
    assert_eq!(usize_text(1000), "1000");
    assert_eq!(usize_text(usize::MAX), usize::MAX.to_string());
    assert_eq!(i32_text(-42), "-42");
    assert_eq!(i32_text(i32::MIN), i32::MIN.to_string());
    assert_eq!(i32_text(7), "7");
}

#[test]
fn base_url_drops_trailing_slashes() {
    assert_eq!(base_url("http://a/b///"), "http://a/b");
    assert_eq!(base_url("http://a"), "http://a");
    assert_eq!(base_url("///"), "");
}

#[test]
fn delete_url_appends_id() {
    let cfg = make_config("https://clh.example.com/", None, None);
    assert_eq!(delete_url(&cfg, 12), "https://clh.example.com/12");
}

#[test]
fn search_config_defaults() {
    let s = SearchConfig::default();
    assert!(s.hostname.is_none());
    assert_eq!(s.page_size, 1000);
    assert_eq!(DEFAULT_PAGE_SIZE, 1000);
    assert!(s.dedup);
    assert_eq!(s.height, "100%");
    assert!(AddConfig::default().ignore_patterns.is_empty());
}

#[test]
fn initial_config_uses_given_server_and_defaults() {
    let cfg = Config::initial("https://clh.example.com", Some("user"), None);
    assert_eq!(cfg.server.url, "https://clh.example.com");
    assert_eq!(cfg.server.basic_auth_user.as_deref(), Some("user"));
    assert!(cfg.server.basic_auth_password.is_none());
    assert_eq!(cfg.search.page_size, 1000);
    assert!(cfg.add.ignore_patterns.is_empty());
}
