use simlogtail::lines::{first_n_lines, last_n_lines, HeadLines, TailLines};

fn v(items: &[&str]) -> Vec<String> {
    items.iter().map(|s| s.to_string()).collect()
}

#[test]
fn first_lines_plain() {
    let lines = v(&["a", "", "b", "c"]);
    assert_eq!(first_n_lines(&lines, 2, false), v(&["a", ""]));
    assert_eq!(first_n_lines(&lines, 10, false), lines);
    assert_eq!(first_n_lines(&lines, 0, false), Vec::<String>::new());
}

#[test]
fn first_lines_skipping_blank() {
    let lines = v(&["", "a", "  \t", "b", "c"]);
    assert_eq!(first_n_lines(&lines, 2, true), v(&["a", "b"]));
    assert_eq!(first_n_lines(&lines, 5, true), v(&["a", "b", "c"]));
}

#[test]
fn last_lines_plain_and_skipping() {
    let lines = v(&["a", "b", " ", "c", ""]);
    assert_eq!(last_n_lines(&lines, 2, false), v(&["c", ""]));
    assert_eq!(last_n_lines(&lines, 2, true), v(&["b", "c"]));
    assert_eq!(last_n_lines(&lines, 9, true), v(&["a", "b", "c"]));
    assert_eq!(last_n_lines(&Vec::new(), 0, false), Vec::<String>::new());
    assert_eq!(last_n_lines(&v(&["", " "]), 0, true), Vec::<String>::new());
}

#[test]
fn head_and_tail_partition_the_kept_lines() {
    let lines = v(&["1", "", "2", "3", "\t", "4", "5"]);
    let kept = v(&["1", "2", "3", "4", "5"]);
    for a in 0..=5usize {
        let b = 5 - a;
        let mut joined = first_n_lines(&lines, a, true);
        if b > 0 {
            joined.extend(last_n_lines(&lines, b, true));
        }
        assert_eq!(joined, kept);
    }
}

#[test]
fn head_and_tail_agree_when_n_covers_all() {
    let lines = v(&["x", "y", "z"]);
    assert_eq!(first_n_lines(&lines, 3, false), last_n_lines(&lines, 3, false));
    assert_eq!(first_n_lines(&lines, 7, false), last_n_lines(&lines, 7, false));
}

#[test]
fn head_collector_stops_when_full() {
    let mut h = HeadLines::new(2, true);
    assert!(h.wants_more());
    h.offer(" ".to_string());
    assert!(h.wants_more());
    h.offer("first".to_string());
    h.offer("second".to_string());
    assert!(!h.wants_more());
    h.offer("third".to_string());
    assert_eq!(h.into_lines(), v(&["first", "second"]));
}

#[test]
fn tail_collector_keeps_last() {
    let mut t = TailLines::new(2, false);
    for s in ["a", "b", "c", ""].iter() {
        t.offer(s.to_string());
    }
    assert_eq!(t.into_lines(), v(&["c", ""]));
}

#[test]
fn last_zero_lines_is_empty() {
    let lines = v(&["a", "b"]);
    assert_eq!(last_n_lines(&lines, 0, false), Vec::<String>::new());
    let mut t = TailLines::new(0, true);
    t.offer("x".to_string());
    assert!(t.into_lines().is_empty());
}

#[test]
fn huge_counts_do_not_preallocate() {
    let lines = v(&["a", "", "b"]);
    assert_eq!(first_n_lines(&lines, usize::MAX, true), v(&["a", "b"]));
    assert_eq!(last_n_lines(&lines, usize::MAX, false), lines);
}
