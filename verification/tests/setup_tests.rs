use clh_client::setup::{setup_script, Shell, SetupError, BASH_SCRIPT, FISH_SCRIPT, ZSH_SCRIPT};

#[test]
fn shell_from_str_known_shells() {
    assert_eq!(Shell::from_str("zsh"), Some(Shell::Zsh));
    assert_eq!(Shell::from_str("bash"), Some(Shell::Bash));
    assert_eq!(Shell::from_str("fish"), Some(Shell::Fish));
}

#[test]
fn shell_from_str_unknown_returns_none() {
    assert_eq!(Shell::from_str("nushell"), None);
    assert_eq!(Shell::from_str(""), None);
}

#[test]
fn print_setup_unknown_shell_returns_error() {
    let result = setup_script(Some("nushell"), None);
    assert!(result.is_err());
    let msg = match result {
        Err(e) => e.message(),
        Ok(_) => unreachable!(),
    };
    assert!(msg.contains("nushell"));
}

#[test]
fn print_setup_explicit_shell_succeeds() {
    assert!(setup_script(Some("zsh"), None).is_ok());
    assert!(setup_script(Some("bash"), None).is_ok());
    assert!(setup_script(Some("fish"), None).is_ok());
}

#[test]
fn unsupported_shell_message_is_exact() {
    match setup_script(Some("nushell"), Some("/bin/zsh")) {
        Err(e) => assert_eq!(e.message(), "Unsupported shell: nushell. Supported: zsh, bash, fish"),
        Ok(_) => panic!("nushell must be refused"),
    }
}

#[test]
fn explicit_shell_selects_its_script() {
    assert_eq!(setup_script(Some("zsh"), None).ok(), Some(ZSH_SCRIPT));
    assert_eq!(setup_script(Some("bash"), Some("/bin/zsh")).ok(), Some(BASH_SCRIPT));
    assert_eq!(setup_script(Some("fish"), None).ok(), Some(FISH_SCRIPT));
}

#[test]
fn shell_detected_from_shell_variable() {
    assert_eq!(Shell::detect(Some("/bin/zsh")), Some(Shell::Zsh));
    assert_eq!(Shell::detect(Some("/usr/local/bin/fish")), Some(Shell::Fish));
    assert_eq!(Shell::detect(Some("bash")), Some(Shell::Bash));
    assert_eq!(Shell::detect(Some("/bin/zsh/")), Some(Shell::Zsh));
    assert_eq!(Shell::detect(Some("/usr/bin/nu")), None);
    assert_eq!(Shell::detect(Some("/")), None);
    assert_eq!(Shell::detect(None), None);
}

#[test]
fn setup_without_flag_uses_detected_shell() {
    assert_eq!(setup_script(None, Some("/bin/bash")).ok(), Some(BASH_SCRIPT));
    assert_eq!(setup_script(None, Some("/usr/bin/zsh")).ok(), Some(ZSH_SCRIPT));
}

#[test]
fn setup_without_any_shell_is_undetected() {
    match setup_script(None, Some("/bin/tcsh")) {
        Err(e) => {
            assert!(matches!(e, SetupError::Undetected));
            assert_eq!(
                e.message(),
                "Could not detect shell from $SHELL. Use --shell <zsh|bash|fish> explicitly."
            );
        }
        Ok(_) => panic!("tcsh must not be detected"),
    }
    assert!(setup_script(None, None).is_err());
}

#[test]
fn scripts_name_their_shell() {
    assert!(ZSH_SCRIPT.starts_with("# clh — zsh integration"));
    assert!(BASH_SCRIPT.contains("bind -x '\"\\C-s\": _clh_search_pwd'"));
    assert!(FISH_SCRIPT.contains("bind \\ct _clh_search_all"));
}
