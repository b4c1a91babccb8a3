use clickpath::event::ClickEvent;
use clickpath::event::ClickPath;
use clickpath::playback::Playback;
use clickpath::session::PlayMode;

fn sample_path() -> ClickPath {
    let mut path = ClickPath::new();
    path.add_click(10, 20);
    path.add_wait(50);
    path.add_click(30, 40);
    path
}

#[test]
fn once_plays_the_log_exactly_and_stops() {
    let mut playback = Playback::start(sample_path(), PlayMode::Once).expect("non-empty");
    let mut performed = Vec::new();
    while playback.has_next() {
        if let Some(ev) = playback.next(false) {
            performed.push(ev);
        }
    }
    assert_eq!(
        performed,
        vec![
            ClickEvent::Click(10, 20),
            ClickEvent::Wait(50),
            ClickEvent::Click(30, 40),
        ]
    );
    assert!(!playback.has_next());
}

#[test]
fn loop_repeats_until_exit() {
    let mut playback = Playback::start(sample_path(), PlayMode::Loop).expect("non-empty");
    let reference = sample_path().clicks;
    let mut performed = Vec::new();
    for _ in 0..7 {
        assert!(playback.has_next(), "a loop pass never ends on its own");
        performed.push(playback.next(false).expect("uncancelled step emits an event"));
    }
    for (i, ev) in performed.iter().enumerate() {
        assert_eq!(*ev, reference[i % reference.len()]);
    }
    let step = playback.next(true);
    assert!(step.is_none(), "the cancelled step performs nothing");
    assert!(!playback.has_next(), "an exit ends the pass at once");
}

#[test]
fn cancel_in_once_mode_stops_early() {
    let mut playback = Playback::start(sample_path(), PlayMode::Once).expect("non-empty");
    assert!(playback.next(false).is_some());
    assert!(playback.next(true).is_none());
    assert!(!playback.has_next());
}

#[test]
fn empty_log_is_refused() {
    assert!(Playback::start(ClickPath::new(), PlayMode::Once).is_none());
    assert!(Playback::start(ClickPath::new(), PlayMode::Loop).is_none());
}

#[test]
fn single_event_loop_wraps() {
    let mut path = ClickPath::new();
    path.add_click(5, 5);
    let mut playback = Playback::start(path, PlayMode::Loop).expect("non-empty");
    for _ in 0..3 {
        assert_eq!(playback.next(false), Some(ClickEvent::Click(5, 5)));
    }
    assert!(playback.has_next());
}
