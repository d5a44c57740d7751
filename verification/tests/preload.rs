use hydration::preload::{strip_query_and_fragment, RoutePreloadQueue};

#[test]
fn queue_is_first_in_first_out() {
    let mut queue = RoutePreloadQueue::new();
    queue.enqueue("/reports/quarterly".to_string());
    queue.enqueue("/users?page=2".to_string());
    queue.enqueue("/reports/quarterly".to_string());
    let taken = queue.take();
    assert_eq!(taken, vec!["/reports/quarterly", "/users?page=2", "/reports/quarterly"]);
    assert!(queue.take().is_empty());
}

#[test]
fn take_of_empty_queue_is_empty() {
    let mut queue = RoutePreloadQueue::new();
    assert!(queue.take().is_empty());
    queue.enqueue("/a".to_string());
    assert_eq!(queue.take(), vec!["/a"]);
}

#[test]
fn strips_query_and_fragment() {
    assert_eq!(strip_query_and_fragment("/a/b?x=1#f"), "/a/b");
    assert_eq!(strip_query_and_fragment("/a/b#f?x=1"), "/a/b");
    assert_eq!(strip_query_and_fragment("/plain"), "/plain");
    assert_eq!(strip_query_and_fragment("?q"), "");
    assert_eq!(strip_query_and_fragment(""), "");
    assert_eq!(strip_query_and_fragment("/é/ü#x"), "/é/ü");
}
