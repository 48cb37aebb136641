use fuzzyd::config::{Config, HistoryConfig, SystemdRunConfig, UIConfig};
use fuzzyd::errors::FuzzydError;
use fuzzyd::sources::Source;
use fuzzyd::ui::{truncate_str, TerminalUI};

#[test]
fn defaults_are_empty() {
    let c = Config::default();
    assert!(!c.debug);
    assert!(c.ui.prompt.is_none());
    assert!(c.ui.highlight_color.is_none());
    assert!(!c.history.enabled);
    assert!(c.history.file.is_none());
    assert!(c.systemd_run.parameters.is_empty());
    let u = UIConfig::default();
    assert!(u.prompt.is_none());
    let h = HistoryConfig::default();
    assert!(!h.enabled);
    let s = SystemdRunConfig::default();
    assert!(s.parameters.is_empty());
}

#[test]
fn error_messages_name_their_cause() {
    assert_eq!(
        FuzzydError::IOError("broken pipe".to_string()).message(),
        "IO error: broken pipe"
    );
    assert_eq!(
        FuzzydError::LaunchError("no such file".to_string()).message(),
        "Failed to launch command: no such file"
    );
    assert_eq!(
        FuzzydError::UserInterrupt.message(),
        "User interrupted the operation"
    );
}

#[test]
fn source_orders_rank_desktop_first() {
    assert_eq!(Source::Desktop.source_order(), 0);
    assert_eq!(Source::Path.source_order(), 1);
    assert!(Source::Desktop.source_order() < Source::Path.source_order());
}

#[test]
fn terminal_ui_keeps_its_settings() {
    let ui = TerminalUI::new(UIConfig::default(), true);
    assert!(ui.debug);
    assert!(ui.config.prompt.is_none());
}

#[test]
fn short_strings_pass_through_truncation() {
    assert_eq!(truncate_str("hi", 10), "hi");
    assert_eq!(truncate_str("", 0), "");
    assert_eq!(truncate_str("abc", 3), "abc");
}

#[test]
fn long_strings_are_cut_with_an_ellipsis() {
    assert_eq!(truncate_str("hello", 3), "he…");
    assert_eq!(truncate_str("hello", 4), "hel…");
    assert_eq!(truncate_str("hello", 0), "…");
}

#[test]
fn truncation_counts_display_columns() {
    // 日 and 本 are two columns wide each: four columns do not fit in three,
    // and the budget of two columns holds only the first character
    assert_eq!(truncate_str("日本", 4), "日本");
    assert_eq!(truncate_str("日本", 3), "日…");
}
