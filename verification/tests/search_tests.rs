use clh_client::history::{
    dedup_by_command, delete_by_command, delete_by_id, preview_text, CommandFilter, History,
    UtcTime,
};
use clh_client::search::{search_step, FinderOutcome, SearchAction, SearchScope, SelectedRecord};
use clh_client::text::{char_width, wrap_command};

fn make_history(id: i32, command: &str, updated_secs: i64) -> History {
    History {
        id,
        hostname: "test-host".to_string(),
        working_directory: Some("/home/user".to_string()),
        command: command.to_string(),
        created_at: UtcTime::new(0, 0).unwrap(),
        updated_at: UtcTime::new(updated_secs, 0).unwrap(),
    }
}

fn commands(records: Vec<History>) -> Vec<String> {
    dedup_by_command(records).into_iter().map(|h| h.command).collect()
}

#[test]
fn dedup_keeps_first_occurrence() {
    // Server returns newest first; first occurrence of a command = most recent
    let records = vec![
        make_history(2, "git status", 2000), // newer — sent first by server
        make_history(1, "git status", 1000), // older duplicate
        make_history(3, "ls -la", 500),
    ];
    let items = dedup_by_command(records);
    assert_eq!(items.len(), 2);
    let git_item = items.iter().find(|i| i.command == "git status").unwrap();
    // Should keep id=2 (the first record in the slice = most recently used)
    assert_eq!(git_item.id, 2);
}

#[test]
fn dedup_preserves_server_order() {
    let records = vec![
        make_history(3, "echo c", 300),
        make_history(2, "echo b", 200),
        make_history(1, "echo a", 100),
    ];
    let result = commands(records);
    assert_eq!(result, vec!["echo c", "echo b", "echo a"]);
}

#[test]
fn dedup_empty_input_returns_empty() {
    let result = dedup_by_command(vec![]);
    assert!(result.is_empty());
}

#[test]
fn dedup_single_record_unchanged() {
    let records = vec![make_history(1, "cargo build", 999)];
    let result = commands(records);
    assert_eq!(result.len(), 1);
    assert_eq!(result[0], "cargo build");
}

#[test]
fn dedup_across_pages_matches_whole_history() {
    let page1 = vec![make_history(6, "a", 6), make_history(5, "b", 5), make_history(4, "a", 4)];
    let page2 = vec![make_history(3, "c", 3), make_history(2, "b", 2), make_history(1, "d", 1)];
    let mut filter = CommandFilter::new();
    let mut streamed: Vec<i32> = filter.filter_page(page1).into_iter().map(|h| h.id).collect();
    streamed.extend(filter.filter_page(page2).into_iter().map(|h| h.id));
    let whole: Vec<i32> = dedup_by_command(vec![
        make_history(6, "a", 6),
        make_history(5, "b", 5),
        make_history(4, "a", 4),
        make_history(3, "c", 3),
        make_history(2, "b", 2),
        make_history(1, "d", 1),
    ])
    .into_iter()
    .map(|h| h.id)
    .collect();
    assert_eq!(streamed, vec![6, 5, 3, 1]);
    assert_eq!(streamed, whole);
    assert!(filter.has_seen(&"d".to_string()));
    assert!(!filter.has_seen(&"e".to_string()));
}

// --- wrap_command tests ---

#[test]
fn wrap_command_short_fits_on_one_line() {
    let result = wrap_command("ls -la", 40);
    assert_eq!(result, "command : ls -la");
}

#[test]
fn wrap_command_zero_width_returns_as_is() {
    let result = wrap_command("ls -la", 0);
    assert_eq!(result, "command : ls -la");
}

#[test]
fn wrap_command_wraps_at_space() {
    // max_width=20 → available=10; "git commit -m 'fix'" is longer
    // "git commit" fits in 10, next word "-m" starts new line
    let result = wrap_command("git commit -m 'fix'", 20);
    assert_eq!(result, "command : git commit\n          -m 'fix'");
}

#[test]
fn wrap_command_no_space_breaks_at_width() {
    // A single long token with no spaces must be cut hard at available width (10)
    // 25 'a's → 10 + 10 + 5 across three lines
    let long = "a".repeat(25);
    let result = wrap_command(&long, 20);
    let expected = format!(
        "command : {}\n          {}\n          {}",
        "a".repeat(10),
        "a".repeat(10),
        "a".repeat(5)
    );
    assert_eq!(result, expected);
}

#[test]
fn wrap_command_multiple_wraps() {
    // max_width=20 → available=10; "aa bb cc dd ee ff" wraps to 2 lines
    let cmd = "aa bb cc dd ee ff";
    let result = wrap_command(cmd, 20);
    let expected = "command : aa bb cc\n          dd ee ff";
    assert_eq!(result, expected);

    let lines: Vec<&str> = result.lines().collect();
    assert_eq!(lines.len(), 2);
    let joined = lines
        .iter()
        .enumerate()
        .map(|(idx, line)| {
            if idx == 0 {
                line.strip_prefix("command : ").unwrap()
            } else {
                line.strip_prefix("          ").unwrap()
            }
        })
        .collect::<Vec<_>>()
        .join(" ");
    assert_eq!(joined, cmd);
}

#[test]
fn wrap_command_non_ascii_wraps_safely() {
    // Each 'é' is 2 bytes (UTF-8). available = 14 - 10 = 4 bytes → fits 2 chars.
    // "ééééé" (5 × 2 = 10 bytes) should wrap without panicking.
    let cmd = "ééééé";
    let result = wrap_command(cmd, 14);
    // 2 chars (4 bytes) fit on first line, 2 on second, 1 on third
    assert_eq!(result, "command : éé\n          éé\n          é");
}

#[test]
fn wrap_command_width_at_prefix_is_unwrapped() {
    assert_eq!(wrap_command("git commit -m 'fix'", 10), "command : git commit -m 'fix'");
}

#[test]
fn wrap_command_drops_one_space_and_keeps_extra_spaces() {
    // The space at the break is dropped; the second one starts the next
    // line, which then breaks at that space and drops it.
    assert_eq!(wrap_command("abcd  efgh", 14), "command : abcd\n          \n          efgh");
    // A trailing space after a full line is dropped.
    assert_eq!(wrap_command("abc ", 13), "command : abc");
}

#[test]
fn wrap_command_lines_fit_width() {
    let cmd = "cargo test --workspace --all-features -- --nocapture déjà vu";
    for width in 12..40usize {
        let result = wrap_command(cmd, width);
        for line in result.lines() {
            assert!(line.len() <= width, "line {:?} wider than {}", line, width);
        }
        let rebuilt: String = result
            .lines()
            .enumerate()
            .map(|(i, l)| if i == 0 { &l[10..] } else { &l[10..] })
            .collect::<Vec<_>>()
            .join("");
        assert_eq!(rebuilt.replace(' ', ""), cmd.replace(' ', ""));
    }
}

#[test]
fn char_width_counts_utf8_bytes() {
    assert_eq!(char_width('a'), 1);
    assert_eq!(char_width('é'), 2);
    assert_eq!(char_width('€'), 3);
    assert_eq!(char_width('😀'), 4);
}

// --- deletion and finder decisions ---

#[test]
fn delete_by_command_takes_all_records_of_command() {
    let mut records = vec![
        make_history(1, "ls", 1),
        make_history(2, "pwd", 2),
        make_history(3, "ls", 3),
    ];
    let ids = delete_by_command(&mut records, "ls");
    assert_eq!(ids, vec![1, 3]);
    assert_eq!(records.len(), 1);
    assert_eq!(records[0].id, 2);
}

#[test]
fn delete_by_id_takes_one_record() {
    let mut records = vec![make_history(1, "ls", 1), make_history(2, "ls", 2)];
    delete_by_id(&mut records, 2);
    assert_eq!(records.len(), 1);
    assert_eq!(records[0].id, 1);
}

#[test]
fn finder_abort_finishes() {
    let act = search_step(SearchScope::Global, FinderOutcome::Aborted, vec![]);
    assert!(matches!(act, SearchAction::Finish));
}

#[test]
fn finder_enter_prints_selection_or_reports_nothing() {
    let act = search_step(
        SearchScope::Global,
        FinderOutcome::Accepted { outputs: vec!["ls -la".to_string()] },
        vec![],
    );
    match act {
        SearchAction::Print { outputs } => assert_eq!(outputs, vec!["ls -la".to_string()]),
        _ => panic!("expected Print"),
    }
    let act = search_step(SearchScope::Directory, FinderOutcome::Accepted { outputs: vec![] }, vec![]);
    assert!(matches!(act, SearchAction::NothingFound));
    assert_eq!(clh_client::search::nothing_found_message(), "No history records found.");
}

#[test]
fn finder_delete_in_directory_takes_every_record_of_command() {
    let snapshot = vec![make_history(7, "make", 3), make_history(8, "ls", 2), make_history(9, "make", 1)];
    let act = search_step(
        SearchScope::Directory,
        FinderOutcome::DeleteKey {
            selected: Some(SelectedRecord { id: Some(7), command: Some("make".to_string()) }),
        },
        snapshot,
    );
    match act {
        SearchAction::DeleteThenRestart { ids } => assert_eq!(ids, vec![7, 9]),
        _ => panic!("expected a deletion"),
    }
}

#[test]
fn finder_delete_in_global_takes_one_record() {
    let snapshot = vec![make_history(7, "make", 3), make_history(9, "make", 1)];
    let act = search_step(
        SearchScope::Global,
        FinderOutcome::DeleteKey {
            selected: Some(SelectedRecord { id: Some(9), command: Some("make".to_string()) }),
        },
        snapshot,
    );
    match act {
        SearchAction::DeleteThenRestart { ids } => assert_eq!(ids, vec![9]),
        _ => panic!("expected a deletion"),
    }
    let act = search_step(SearchScope::Global, FinderOutcome::DeleteKey { selected: None }, vec![]);
    match act {
        SearchAction::DeleteThenRestart { ids } => assert!(ids.is_empty()),
        _ => panic!("expected a restart"),
    }
}

// --- preview ---

#[test]
fn preview_shows_command_host_directory_and_time() {
    let h = make_history(1, "git commit -m 'fix'", 1_704_067_200);
    assert_eq!(
        preview_text(&h, 20),
        "command : git commit\n          -m 'fix'\nhostname: test-host\npwd     : /home/user\nupdated : 2024-01-01 00:00:00 UTC"
    );
    let mut h2 = make_history(2, "ls", 0);
    h2.working_directory = None;
    assert_eq!(
        preview_text(&h2, 0),
        "command : ls\nhostname: test-host\npwd     : -\nupdated : 1970-01-01 00:00:00 UTC"
    );
}

#[test]
fn utc_time_range() {
    assert!(UtcTime::new(0, 0).is_some());
    assert!(UtcTime::new(-8_334_601_228_800, 0).is_some());
    assert!(UtcTime::new(-8_334_601_228_801, 0).is_none());
    assert!(UtcTime::new(8_210_266_876_799, 999_999_999).is_some());
    assert!(UtcTime::new(8_210_266_876_800, 0).is_none());
    assert!(UtcTime::new(59, 1_500_000_000).is_some());
    assert!(UtcTime::new(58, 1_500_000_000).is_none());
    assert!(UtcTime::new(-1, 1_000_000_000).is_some());
    assert!(UtcTime::new(59, 2_000_000_000).is_none());
    let t = UtcTime::new(1_704_067_200, 5).unwrap();
    assert_eq!((t.secs(), t.nanos()), (1_704_067_200, 5));
    assert_eq!(t.to_text(), "2024-01-01 00:00:00 UTC");
}

#[test]
fn utc_time_range_agrees_with_chrono() {
    for (secs, nanos) in [
        (-8_334_601_228_800i64, 0u32),
        (-8_334_601_228_801, 0),
        (8_210_266_876_799, 1_999_999_999),
        (8_210_266_876_800, 0),
        (-1, 1_000_000_000),
        (-2, 1_000_000_000),
    ] {
        assert_eq!(
            UtcTime::new(secs, nanos).is_some(),
            chrono::DateTime::from_timestamp(secs, nanos).is_some(),
            "{} {}",
            secs,
            nanos
        );
    }
}
