use disk_scout::topn::{path_less, TopN};

fn sizes_of(t: TopN) -> Vec<(u64, String)> {
    t.into_sorted_desc().into_iter().map(|s| (s.size, s.path)).collect()
}

#[test]
fn keeps_the_largest_in_descending_order() {
    let mut t = TopN::new(2);
    t.consider("/r/d1/a.bin".to_string(), 10);
    t.consider("/r/d1/b.bin".to_string(), 30);
    t.consider("/r/c.bin".to_string(), 20);
    assert_eq!(
        sizes_of(t),
        vec![(30, "/r/d1/b.bin".to_string()), (20, "/r/c.bin".to_string())]
    );
}

#[test]
fn zero_capacity_keeps_nothing() {
    let mut t = TopN::new(0);
    t.consider("/x".to_string(), 5);
    assert!(sizes_of(t).is_empty());
}

#[test]
fn keeps_everything_while_there_is_room() {
    let mut t = TopN::new(5);
    for (i, s) in [3u64, 1, 2].iter().enumerate() {
        t.consider(format!("/f{i}"), *s);
    }
    assert_eq!(sizes_of(t).len(), 3);
}

#[test]
fn equal_sizes_do_not_replace_and_sort_by_path() {
    let mut t = TopN::new(2);
    t.consider("/b".to_string(), 10);
    t.consider("/a".to_string(), 10);
    t.consider("/c".to_string(), 10);
    assert_eq!(
        sizes_of(t),
        vec![(10, "/a".to_string()), (10, "/b".to_string())]
    );
}

#[test]
fn paths_order_by_component() {
    let mut t = TopN::new(3);
    t.consider("/a-b".to_string(), 1);
    t.consider("/a/b".to_string(), 1);
    t.consider("/a".to_string(), 1);
    assert_eq!(
        sizes_of(t),
        vec![(1, "/a".to_string()), (1, "/a/b".to_string()), (1, "/a-b".to_string())]
    );
}

#[test]
fn replaces_the_smallest_kept_entry() {
    let mut t = TopN::new(3);
    for (p, s) in [("/a", 5u64), ("/b", 1), ("/c", 9), ("/d", 4), ("/e", 2), ("/f", 7)] {
        t.consider(p.to_string(), s);
    }
    assert_eq!(
        sizes_of(t),
        vec![(9, "/c".to_string()), (7, "/f".to_string()), (5, "/a".to_string())]
    );
}

#[test]
fn keeps_an_entry_as_often_as_it_was_offered() {
    let mut t = TopN::new(3);
    t.consider("/r/a".to_string(), 5);
    t.consider("/r/a".to_string(), 5);
    t.consider("/r/b".to_string(), 1);
    t.consider("/r/c".to_string(), 3);
    assert_eq!(
        sizes_of(t),
        vec![(5, "/r/a".to_string()), (5, "/r/a".to_string()), (3, "/r/c".to_string())]
    );
    let mut once = TopN::new(3);
    once.consider("/r/a".to_string(), 5);
    once.consider("/r/b".to_string(), 1);
    assert_eq!(sizes_of(once), vec![(5, "/r/a".to_string()), (1, "/r/b".to_string())]);
}

fn chars(s: &str) -> Vec<char> {
    s.chars().collect()
}

#[test]
fn backslash_orders_as_a_separator_where_it_is_one() {
    // where `\` separates components (Windows), `C:\a\b` comes before `C:\a-b`
    assert!(path_less(&chars("C:\\a\\b"), &chars("C:\\a-b"), true));
    assert!(!path_less(&chars("C:\\a-b"), &chars("C:\\a\\b"), true));
    // elsewhere it is an ordinary character, above `-`
    assert!(path_less(&chars("C:\\a-b"), &chars("C:\\a\\b"), false));
    assert!(!path_less(&chars("C:\\a\\b"), &chars("C:\\a-b"), false));
    // `/` separates everywhere
    for bs in [false, true] {
        assert!(path_less(&chars("/a/b"), &chars("/a-b"), bs));
        assert!(path_less(&chars("/a"), &chars("/a/b"), bs));
    }
}

#[test]
fn repeated_offers_are_dropped_before_larger_ones() {
    let mut t = TopN::new(2);
    for _ in 0..3 {
        t.consider("/r/a".to_string(), 5);
    }
    t.consider("/r/b".to_string(), 9);
    t.consider("/r/c".to_string(), 4);
    assert_eq!(sizes_of(t), vec![(9, "/r/b".to_string()), (5, "/r/a".to_string())]);
}

#[test]
fn tied_paths_follow_the_platform_separators() {
    let mut t = TopN::new(2);
    t.consider("r\\a-b".to_string(), 1);
    t.consider("r\\a\\b".to_string(), 1);
    let expected = if std::path::is_separator('\\') {
        vec![(1, "r\\a\\b".to_string()), (1, "r\\a-b".to_string())]
    } else {
        vec![(1, "r\\a-b".to_string()), (1, "r\\a\\b".to_string())]
    };
    assert_eq!(sizes_of(t), expected);
}
