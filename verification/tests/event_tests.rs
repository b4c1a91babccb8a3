use clickpath::event::ClickEvent;
use clickpath::event::ClickPath;

#[test]
fn path_grows_one_event_per_call() {
    let mut path = ClickPath::new();
    assert!(path.is_empty());
    assert_eq!(path.len(), 0);
    path.add_click(1, 2);
    assert_eq!(path.len(), 1);
    path.add_wait(3);
    assert_eq!(path.len(), 2);
    assert!(!path.is_empty());
    assert_eq!(
        path.clicks,
        vec![ClickEvent::Click(1, 2), ClickEvent::Wait(3)]
    );
}
