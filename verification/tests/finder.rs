use fuzzyd::finder::{FuzzyFinder, FuzzyItem};

fn item(display: &str, identity: &str, priority: u8, source_order: usize) -> FuzzyItem {
    FuzzyItem {
        display: display.to_string(),
        identity: identity.to_string(),
        priority,
        source_order,
        description: String::new(),
        source_path: String::new(),
        search_desc: false,
        icon: String::new(),
    }
}

#[test]
fn dedup_keeps_lower_source_rank_either_order() {
    let a = item("From desktop", "x", 1, 0);
    let b = item("From path", "x", 1, 1);

    let mut f1 = FuzzyFinder::new(None);
    f1.add_items(vec![a.clone(), b.clone()]);
    assert_eq!(f1.item_count(), 1);
    let r1 = f1.find("");
    assert_eq!(r1[0].1.display, "From desktop");

    let mut f2 = FuzzyFinder::new(None);
    f2.add_items(vec![b.clone(), a.clone()]);
    assert_eq!(f2.item_count(), 1);
    let r2 = f2.find("");
    assert_eq!(r2[0].1.display, "From desktop");
}

#[test]
fn dedup_tie_keeps_first_seen() {
    let a = item("first", "x", 1, 3);
    let b = item("second", "x", 1, 3);

    let mut f = FuzzyFinder::new(None);
    f.add_items(vec![a.clone(), b.clone()]);
    assert_eq!(f.item_count(), 1);
    assert_eq!(f.find("")[0].1.display, "first");

    let mut g = FuzzyFinder::new(None);
    g.add_items(vec![b, a]);
    assert_eq!(g.find("")[0].1.display, "second");
}

#[test]
fn dedup_works_across_batches() {
    let mut f = FuzzyFinder::new(None);
    f.add_items(vec![item("path hit", "x", 1, 1), item("other", "y", 1, 1)]);
    f.add_items(vec![item("desktop hit", "x", 2, 0)]);
    assert_eq!(f.item_count(), 2);
    let top: Vec<String> = f.find("").into_iter().map(|p| p.1.display).collect();
    assert!(top.contains(&"desktop hit".to_string()));
    assert!(!top.contains(&"path hit".to_string()));
}

#[test]
fn end_to_end_query_filters_and_scores() {
    let mut f = FuzzyFinder::new(None);
    f.add_items(vec![
        item("Foo", "/bin/foo", 1, 0),
        item("Bar Baz", "/bin/bar", 1, 0),
    ]);
    let r = f.find("ba");
    assert_eq!(r.len(), 1);
    assert_eq!(r[0].1.display, "Bar Baz");
    assert!(r[0].0 > 0);
}

#[test]
fn history_strictly_increases_score() {
    // an enabled, initially empty history
    let mut f = FuzzyFinder::new(Some(String::new()));
    f.add_items(vec![item("Bar Baz", "/bin/bar", 1, 0)]);
    let before = f.find("ba")[0].0;
    let saved = f.record_usage("/bin/bar");
    assert!(saved.is_some());
    let after_one = f.find("ba")[0].0;
    f.record_usage("/bin/bar");
    let after_two = f.find("ba")[0].0;
    assert!(before < after_one);
    assert!(after_one < after_two);
    // in tenths: each use adds 100, times priority 1
    assert_eq!(after_one - before, 100);
}

#[test]
fn history_disabled_changes_nothing() {
    let mut f = FuzzyFinder::new(None);
    f.add_items(vec![item("Bar Baz", "/bin/bar", 1, 0)]);
    let before = f.find("ba")[0].0;
    assert_eq!(f.record_usage("/bin/bar"), None);
    assert_eq!(f.find("ba")[0].0, before);
}

#[test]
fn empty_query_ranks_all_items_sorted() {
    let mut f = FuzzyFinder::new(None);
    f.add_items(vec![
        item("low", "a", 1, 0),
        item("high", "b", 9, 0),
        item("mid", "c", 4, 0),
    ]);
    let r = f.find("");
    assert_eq!(r.len(), 3);
    let names: Vec<String> = r.iter().map(|p| p.1.display.clone()).collect();
    assert_eq!(names, vec!["high", "mid", "low"]);
    // empty-query scores are additive, in tenths: 10 * priority
    assert_eq!(r[0].0, 90);
    assert_eq!(r[1].0, 40);
    assert_eq!(r[2].0, 10);
}

#[test]
fn priority_multiplies_query_scores() {
    let mut f = FuzzyFinder::new(None);
    f.add_items(vec![
        item("alpha", "p1", 1, 0),
        item("alpha", "p3", 3, 0),
    ]);
    let r = f.find("alpha");
    assert_eq!(r.len(), 2);
    assert_eq!(r[0].1.identity, "p3");
    assert_eq!(r[0].0, 3 * r[1].0);
}

#[test]
fn results_are_sorted_descending() {
    let mut f = FuzzyFinder::new(None);
    f.add_items(vec![
        item("ab", "1", 1, 0),
        item("xaxb", "2", 1, 0),
        item("abot", "3", 1, 0),
        item("zab", "4", 1, 0),
    ]);
    let r = f.find("ab");
    assert!(r.len() >= 3);
    for w in r.windows(2) {
        assert!(w[0].0 >= w[1].0);
    }
}
