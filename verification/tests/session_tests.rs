use clickpath::event::ClickEvent;
use clickpath::parser::deserialize;
use clickpath::session::AppCommand;
use clickpath::session::PlayMode;
use clickpath::session::Session;
use clickpath::session::wants_exit;

#[test]
fn wait_omitted_exactly_when_elapsed_is_zero() {
    let mut session = Session::new();
    session.start_recording();
    let taken = session.register_click(0, 10, 20);
    assert!(taken);
    assert_eq!(session.log.clicks, vec![ClickEvent::Click(10, 20)]);
    let taken = session.register_click(50, 30, 40);
    assert!(taken);
    assert_eq!(
        session.log.clicks,
        vec![
            ClickEvent::Click(10, 20),
            ClickEvent::Wait(50),
            ClickEvent::Click(30, 40),
        ]
    );
}

#[test]
fn register_click_outside_recording_changes_nothing() {
    let mut session = Session::new();
    let taken = session.register_click(25, 1, 2);
    assert!(!taken);
    assert!(session.log.clicks.is_empty());
    assert!(!session.is_recording());

    session.start_recording();
    session.register_click(0, 5, 6);
    session.stop_recording();
    let before = session.log.clicks.clone();
    let taken = session.register_click(99, 7, 8);
    assert!(!taken);
    assert_eq!(session.log.clicks, before);
}

#[test]
fn play_refused_while_recording() {
    let mut session = Session::new();
    assert!(session.can_play());
    session.start_recording();
    assert!(!session.can_play());
    session.stop_recording();
    assert!(session.can_play());
}

#[test]
fn two_starts_leave_an_empty_log() {
    let mut session = Session::new();
    session.start_recording();
    session.register_click(10, 1, 2);
    session.start_recording();
    session.start_recording();
    assert!(session.log.clicks.is_empty());
    assert!(session.is_recording());
}

#[test]
fn stop_recording_writes_the_log_and_ends_recording() {
    let mut session = Session::new();
    session.start_recording();
    session.register_click(0, 10, 20);
    session.register_click(50, 30, 40);
    let data = session.stop_recording();
    assert!(!session.is_recording());
    let back = deserialize(data.as_slice()).expect("what stop produced must decode");
    assert_eq!(back.clicks, session.log.clicks);
}

#[test]
fn stop_recording_with_nothing_recorded_writes_an_empty_log() {
    let mut session = Session::new();
    let data = session.stop_recording();
    assert_eq!(data, b"{\"clicks\":[]}".to_vec());
    let back = deserialize(data.as_slice()).expect("the empty document decodes");
    assert!(back.clicks.is_empty());
}

#[test]
fn only_exit_cancels_playback() {
    assert!(wants_exit(&AppCommand::Exit));
    assert!(!wants_exit(&AppCommand::StartRecording));
    assert!(!wants_exit(&AppCommand::RegisterClick));
    assert!(!wants_exit(&AppCommand::StopRecording));
    assert!(!wants_exit(&AppCommand::PlayClicks(PlayMode::Once)));
    assert!(!wants_exit(&AppCommand::PlayClicks(PlayMode::Loop)));
}
