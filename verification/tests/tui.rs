use pfp::tui::{Aggregator, Display, Key};
use pfp::zend::Frame;

fn frame(name: &str) -> Frame {
    Frame { function: name.into(), class: None, file: None, line: 0 }
}

#[test]
fn aggregator_counts_exclusive_at_leaf() {
    let mut a = Aggregator::new();
    a.record(&[frame("usleep"), frame("level3"), frame("level2")], 1);
    a.record(&[frame("usleep"), frame("level3"), frame("level2")], 2);
    a.record(&[frame("level3"), frame("level2")], 3);
    let by_excl = a.top_rows(false, 10);
    let usleep = by_excl.iter().find(|(n, _)| n == "usleep").unwrap();
    assert_eq!(usleep.1.exclusive, 2);
    let level3 = by_excl.iter().find(|(n, _)| n == "level3").unwrap();
    assert_eq!(level3.1.exclusive, 1);
}

#[test]
fn aggregator_counts_inclusive_once_per_sample() {
    let mut a = Aggregator::new();
    // level2 calls level2 recursively: inclusive should still be 1, not 2.
    a.record(&[frame("level2"), frame("level2"), frame("entry")], 1);
    let by_inc = a.top_rows(true, 10);
    let l2 = by_inc.iter().find(|(n, _)| n == "level2").unwrap();
    assert_eq!(l2.1.inclusive, 1);
    let entry = by_inc.iter().find(|(n, _)| n == "entry").unwrap();
    assert_eq!(entry.1.inclusive, 1);
}

#[test]
fn reset_clears_counts() {
    let mut a = Aggregator::new();
    a.record(&[frame("foo")], 1);
    a.reset(2);
    assert!(a.top_rows(false, 10).is_empty());
    assert_eq!(a.samples(), 0);
    assert_eq!(a.started(), Some(2));
}

#[test]
fn empty_stacks_only_start_the_clock() {
    let mut a = Aggregator::new();
    assert_eq!(a.started(), None);
    a.record(&[], 5);
    a.record(&[frame("f")], 6);
    assert_eq!(a.started(), Some(5));
    assert_eq!(a.samples(), 1);
}

#[test]
fn rows_are_sorted_and_cut() {
    let mut a = Aggregator::new();
    for _ in 0..3 {
        a.record(&[frame("leaf"), frame("main")], 1);
    }
    a.record(&[frame("other"), frame("mid"), frame("main")], 1);
    a.record(&[frame("other"), frame("main")], 1);
    let names = |rows: Vec<(String, pfp::tui::Counts)>| {
        rows.into_iter().map(|(n, _)| n).collect::<Vec<_>>()
    };
    assert_eq!(names(a.top_rows(true, 3)), ["main", "leaf", "other"]);
    assert_eq!(names(a.top_rows(false, 2)), ["leaf", "other"]);
    assert!(a.top_rows(true, 0).is_empty());
    let all = a.top_rows(true, 100);
    assert_eq!(all.len(), 4);
    for (_, c) in &all {
        assert!(c.exclusive <= c.inclusive && c.inclusive <= a.samples());
    }
    assert_eq!(all.iter().map(|(_, c)| c.exclusive).sum::<u64>(), a.samples());
    assert_eq!((all[0].1.exclusive, all[0].1.inclusive), (0, 5));
}

#[test]
fn keys_quit_toggle_and_reset() {
    let mut d = Display::new();
    assert!(d.by_inclusive);
    assert!(d.draw_due(0, 250));
    d.drawn(100);
    assert!(!d.draw_due(349, 250));
    assert!(d.draw_due(350, 250));
    d.agg.record(&[frame("f")], 1);
    assert!(!d.on_key(Key::Char('i'), 2));
    assert!(!d.by_inclusive);
    assert!(!d.on_key(Key::Char('x'), 2));
    assert!(!d.on_key(Key::Other, 2));
    assert_eq!(d.agg.samples(), 1);
    assert!(!d.on_key(Key::Char('r'), 9));
    assert_eq!(d.agg.samples(), 0);
    assert_eq!(d.agg.started(), Some(9));
    assert!(d.on_key(Key::Char('q'), 2));
    assert!(d.on_key(Key::Esc, 2));
}

#[test]
fn counts_add_up_from_any_reset_on() {
    let mut a = Aggregator::new();
    a.record(&[frame("old")], 5);
    a.reset(6);
    a.record(&[], 7);
    assert_eq!(a.samples(), 0);
    assert!(a.top_rows(true, 10).is_empty());
    a.record(&[frame("x"), frame("y"), frame("x")], 8);
    a.record(&[frame("y")], 80);
    a.record(&[frame("x"), frame("z")], 81);
    assert_eq!(a.started(), Some(6));
    assert_eq!(a.samples(), 3);
    let rows = a.top_rows(false, 10);
    assert_eq!(rows.iter().map(|(_, c)| c.exclusive).sum::<u64>(), 3);
    assert_eq!(rows.len(), 3);
    for (_, c) in &rows {
        assert!(c.inclusive >= 1 && c.exclusive <= c.inclusive && c.inclusive <= 3);
    }
}
