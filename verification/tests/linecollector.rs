use linefreq::linecollector::LineCollector;

#[test]
fn line_collector_is_empty_by_default() {
    let lc = LineCollector::new();

    let returned_items: Vec<(usize, String)> = lc.iter();
    let expected_items: Vec<(usize, String)> = vec![];
    assert_eq!(returned_items, expected_items);

    assert_eq!(lc.num_total(), 0);
    assert_eq!(lc.num_unique(), 0);
}

#[test]
fn line_collector_stores_duplicate_lines() {
    let mut lc = LineCollector::new();
    lc.insert("a");
    lc.insert("a");
    lc.insert("a");

    let returned_items: Vec<(usize, String)> = lc.iter();
    let expected_items = vec![(3, "a".to_string())];
    assert_eq!(returned_items, expected_items);

    assert_eq!(lc.num_total(), 3);
    assert_eq!(lc.num_unique(), 1);
}

#[test]
fn line_collector_stores_unique_lines() {
    let mut lc = LineCollector::new();
    lc.insert("a");
    lc.insert("b");
    lc.insert("c");

    let returned_items: Vec<(usize, String)> = lc.iter();
    let expected_items = vec![(1, "a".to_string()), (1, "b".to_string()), (1, "c".to_string())];
    assert_eq!(returned_items, expected_items);

    assert_eq!(lc.num_total(), 3);
    assert_eq!(lc.num_unique(), 3);
}

#[test]
fn duplicate_lines_are_ordered_lexicographically() {
    let mut lc = LineCollector::new();
    lc.insert("a");
    lc.insert("c");
    lc.insert("b");
    lc.insert("b");
    lc.insert("c");
    lc.insert("a");

    let returned_items: Vec<(usize, String)> = lc.iter();
    let expected_items = vec![(2, "a".to_string()), (2, "b".to_string()), (2, "c".to_string())];
    assert_eq!(returned_items, expected_items);

    assert_eq!(lc.num_total(), 6);
    assert_eq!(lc.num_unique(), 3);
}

#[test]
fn line_collector_stores_mixed_lines() {
    let mut lc = LineCollector::new();
    lc.insert("a");
    lc.insert("b");
    lc.insert("c");
    lc.insert("b");
    lc.insert("a");
    lc.insert("b");

    let returned_items: Vec<(usize, String)> = lc.iter();
    let expected_items = vec![(3, "b".to_string()), (2, "a".to_string()), (1, "c".to_string())];
    assert_eq!(returned_items, expected_items);

    assert_eq!(lc.num_total(), 6);
    assert_eq!(lc.num_unique(), 3);
}

#[test]
fn lookup_reports_counts_and_absence() {
    let mut lc = LineCollector::new();
    lc.insert("alpha");
    lc.insert("beta");
    lc.insert("alpha");

    assert_eq!(lc.get("alpha"), Some(2));
    assert_eq!(lc.get("beta"), Some(1));
    assert_eq!(lc.get("gamma"), None);
}

#[test]
fn insertion_order_does_not_change_final_ranking() {
    let mut first = LineCollector::new();
    for line in ["a", "b", "c", "b", "a", "b"] {
        first.insert(line);
    }

    let mut second = LineCollector::new();
    for line in ["b", "b", "b", "c", "a", "a"] {
        second.insert(line);
    }

    assert_eq!(first.iter(), second.iter());
    assert_eq!(first.num_total(), second.num_total());
    assert_eq!(first.num_unique(), second.num_unique());
}

#[test]
fn ranking_is_stable_between_requests() {
    let mut lc = LineCollector::new();
    lc.insert("x");
    lc.insert("y");
    lc.insert("x");

    let once = lc.iter();
    let twice = lc.iter();
    assert_eq!(once, twice);
}

#[test]
fn ranking_sorts_counts_descending_then_lines_ascending() {
    let mut lc = LineCollector::new();
    for line in ["pear", "apple", "pear", "quince", "apple", "pear", "fig"] {
        lc.insert(line);
    }

    let expected = vec![
        (3, "pear".to_string()),
        (2, "apple".to_string()),
        (1, "fig".to_string()),
        (1, "quince".to_string()),
    ];
    assert_eq!(lc.iter(), expected);
}

#[test]
fn empty_line_is_a_line_like_any_other() {
    let mut lc = LineCollector::new();
    lc.insert("");
    lc.insert("");
    lc.insert("a");

    let expected = vec![(2, "".to_string()), (1, "a".to_string())];
    assert_eq!(lc.iter(), expected);
    assert_eq!(lc.num_total(), 3);
    assert_eq!(lc.num_unique(), 2);
}
