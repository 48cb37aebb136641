use fuzzyd::history::History;

#[test]
fn missing_store_is_a_noop() {
    let mut h = History::new(None);
    assert_eq!(h.get_count("firefox"), 0);
    assert_eq!(h.record_usage("firefox"), None);
    assert_eq!(h.get_count("firefox"), 0);
}

#[test]
fn counts_default_to_zero() {
    let h = History::new(Some("firefox\t3\n".to_string()));
    assert_eq!(h.get_count("firefox"), 3);
    assert_eq!(h.get_count("unknown"), 0);
}

#[test]
fn malformed_records_are_skipped() {
    let text = "good\t2\nno tab here\ntoo\tmany\tfields\nneg\t-1\nbad\t2x\nempty\t\n\nok\t7\n";
    let h = History::new(Some(text.to_string()));
    assert_eq!(h.get_count("good"), 2);
    assert_eq!(h.get_count("ok"), 7);
    assert_eq!(h.get_count("no tab here"), 0);
    assert_eq!(h.get_count("too"), 0);
    assert_eq!(h.get_count("neg"), 0);
    assert_eq!(h.get_count("bad"), 0);
    assert_eq!(h.get_count("empty"), 0);
}

#[test]
fn oversized_counts_are_skipped() {
    let h = History::new(Some("big\t4294967296\nfits\t4294967295\n".to_string()));
    assert_eq!(h.get_count("big"), 0);
    assert_eq!(h.get_count("fits"), u32::MAX);
}

#[test]
fn later_records_win() {
    let h = History::new(Some("x\t1\nx\t5\n".to_string()));
    assert_eq!(h.get_count("x"), 5);
}

#[test]
fn record_usage_increments_and_renders() {
    let mut h = History::new(Some(String::new()));
    assert_eq!(h.get_count("alpha"), 0);
    let s1 = h.record_usage("alpha").unwrap();
    assert_eq!(s1, "alpha\t1\n");
    assert_eq!(h.get_count("alpha"), 1);
    h.record_usage("beta");
    let s3 = h.record_usage("alpha").unwrap();
    assert_eq!(h.get_count("alpha"), 2);
    assert_eq!(h.get_count("beta"), 1);
    assert_eq!(s3, "alpha\t2\nbeta\t1\n");
}

#[test]
fn round_trip_preserves_counts() {
    let mut h = History::new(Some(String::new()));
    let identities = ["/bin/ls", "/usr/bin/vim", "/bin/ls", "cat pictures", "/bin/ls"];
    let mut rendered = None;
    for id in identities {
        rendered = h.record_usage(id);
    }
    let reloaded = History::new(rendered);
    assert_eq!(reloaded.get_count("/bin/ls"), 3);
    assert_eq!(reloaded.get_count("/usr/bin/vim"), 1);
    assert_eq!(reloaded.get_count("cat pictures"), 1);
    assert_eq!(reloaded.get_count("unknown"), 0);
}
