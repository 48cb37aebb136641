use fuzzyd::desktop::{parse_desktop_file, parse_exec};

#[test]
fn field_codes_are_dropped() {
    assert_eq!(parse_exec("kitty %F", "ic"), "kitty");
    assert_eq!(parse_exec("app %f %u %U middle %d", "ic"), "app    middle");
    assert_eq!(parse_exec("firefox", "ic"), "firefox");
}

#[test]
fn icon_code_expands() {
    assert_eq!(parse_exec("app %i --x", "stock", ), "app --icon stock --x");
}

#[test]
fn quotes_and_whitespace_are_stripped() {
    assert_eq!(parse_exec("  \"/usr/bin/some app\"  ", ""), "/usr/bin/some app");
    assert_eq!(parse_exec("\"half", ""), "half");
}

#[test]
fn unknown_percent_codes_survive() {
    assert_eq!(parse_exec("app %z", ""), "app %z");
    assert_eq!(parse_exec("50%% off", ""), "50%% off");
}

#[test]
fn parses_a_main_entry() {
    let contents = "[Desktop Entry]\nName=Firefox\nExec=firefox %u\nComment=Browse the web\nIcon=ff\n";
    let items = parse_desktop_file(contents, "/apps/firefox.desktop", "  ");
    assert_eq!(items.len(), 1);
    let it = &items[0];
    assert_eq!(it.display, "Firefox");
    assert_eq!(it.identity, "firefox");
    assert_eq!(it.description, "Browse the web");
    assert!(it.search_desc);
    assert_eq!(it.priority, 2);
    assert_eq!(it.source_order, 0);
    assert_eq!(it.source_path, "/apps/firefox.desktop");
    assert_eq!(it.icon, "  ");
}

#[test]
fn parses_desktop_actions() {
    let contents = "[Desktop Entry]\nName=Browser\nExec=browser\n[Desktop Action Private]\nName=Private Window\nExec=browser --private\n";
    let items = parse_desktop_file(contents, "/a/b.desktop", " ");
    assert_eq!(items.len(), 2);
    assert_eq!(items[0].display, "Browser");
    assert_eq!(items[1].display, "Private Window (Private)");
    assert_eq!(items[1].identity, "browser --private");
    assert_eq!(items[1].source_path, "/a/b.desktop:Desktop Action Private");
}

#[test]
fn entry_without_exec_yields_nothing() {
    let contents = "[Desktop Entry]\nName=Broken\n";
    assert_eq!(parse_desktop_file(contents, "/p", " ").len(), 0);
}

#[test]
fn missing_comment_reads_no_description() {
    let contents = "[Desktop Entry]\nName=X\nExec=x\n";
    let items = parse_desktop_file(contents, "/p", " ");
    assert_eq!(items[0].description, "No description");
    assert!(!items[0].search_desc);
}

#[test]
fn keys_and_values_are_trimmed_and_later_writes_win() {
    let contents = "[Desktop Entry]\n Name = Padded \nName=Final\nExec=run\n";
    let items = parse_desktop_file(contents, "/p", " ");
    assert_eq!(items[0].display, "Final");
}

#[test]
fn keys_outside_known_sections_are_ignored() {
    let contents = "[Other Section]\nName=Nope\nExec=nope\n[Desktop Entry]\nName=Real\nExec=real\n";
    let items = parse_desktop_file(contents, "/p", " ");
    assert_eq!(items.len(), 1);
    assert_eq!(items[0].display, "Real");
}
