use tagwords::tracker::{TagTracker, ROOT_TAG};

#[test]
fn tracker_starts_at_the_root() {
    let tracker = TagTracker::new();
    assert_eq!(tracker.current_tag(), "root");
    assert_eq!(tracker.current_tag(), ROOT_TAG);
    assert_eq!(tracker.depth(), 0);
}

#[test]
fn start_tag_becomes_current() {
    let mut tracker = TagTracker::new();
    tracker.on_start_tag("body".to_string());
    assert_eq!(tracker.current_tag(), "body");
    assert_eq!(tracker.depth(), 1);
    tracker.on_start_tag("p".to_string());
    assert_eq!(tracker.current_tag(), "p");
    assert_eq!(tracker.depth(), 2);
}

#[test]
fn end_tag_restores_the_enclosing_tag() {
    let mut tracker = TagTracker::new();
    tracker.on_start_tag("p".to_string());
    tracker.on_start_tag("span".to_string());
    tracker.on_end_tag("span");
    assert_eq!(tracker.current_tag(), "p");
    tracker.on_end_tag("p");
    assert_eq!(tracker.current_tag(), "root");
    assert_eq!(tracker.depth(), 0);
}

#[test]
fn end_tag_name_is_not_compared() {
    let mut tracker = TagTracker::new();
    tracker.on_start_tag("div".to_string());
    tracker.on_start_tag("em".to_string());
    tracker.on_end_tag("table");
    assert_eq!(tracker.current_tag(), "div");
}

#[test]
fn unmatched_end_tag_changes_nothing() {
    let mut tracker = TagTracker::new();
    tracker.on_end_tag("p");
    assert_eq!(tracker.current_tag(), "root");
    assert_eq!(tracker.depth(), 0);
    tracker.on_start_tag("p".to_string());
    tracker.on_end_tag("p");
    tracker.on_end_tag("p");
    tracker.on_end_tag("p");
    assert_eq!(tracker.current_tag(), "root");
    assert_eq!(tracker.depth(), 0);
    tracker.on_start_tag("a".to_string());
    assert_eq!(tracker.current_tag(), "a");
    assert_eq!(tracker.depth(), 1);
}

#[test]
fn same_tag_nested_in_itself() {
    let mut tracker = TagTracker::new();
    tracker.on_start_tag("div".to_string());
    tracker.on_start_tag("div".to_string());
    assert_eq!(tracker.depth(), 2);
    tracker.on_end_tag("div");
    assert_eq!(tracker.current_tag(), "div");
    tracker.on_end_tag("div");
    assert_eq!(tracker.current_tag(), "root");
}
