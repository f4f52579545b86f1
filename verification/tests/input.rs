use threedee::input::{aspect_ratio, flag_enabled, is_exit_event, quit_requested, InputEvent, Key};

#[test]
fn escape_and_quit_end_the_loop() {
    assert!(is_exit_event(&InputEvent::Quit));
    assert!(is_exit_event(&InputEvent::KeyDown(Some(Key::Escape))));
    assert!(!is_exit_event(&InputEvent::KeyDown(Some(Key::Other))));
    assert!(!is_exit_event(&InputEvent::KeyDown(None)));
    assert!(!is_exit_event(&InputEvent::Other));
}

#[test]
fn a_frame_ends_the_loop_if_any_event_does() {
    assert!(!quit_requested(&vec![]));
    assert!(!quit_requested(&vec![InputEvent::Other, InputEvent::KeyDown(None)]));
    assert!(quit_requested(&vec![InputEvent::Other, InputEvent::Quit, InputEvent::Other]));
}

#[test]
fn switches_default_to_on() {
    assert!(flag_enabled(&None));
    assert!(flag_enabled(&Some("1".to_string())));
    assert!(!flag_enabled(&Some("0".to_string())));
    assert!(!flag_enabled(&Some("".to_string())));
    assert!(!flag_enabled(&Some("11".to_string())));
    assert!(!flag_enabled(&Some(" 1".to_string())));
}

#[test]
fn aspect_ratio_drops_the_remainder() {
    assert_eq!(aspect_ratio(768, 768), 1);
    assert_eq!(aspect_ratio(1024, 768), 1);
    assert_eq!(aspect_ratio(1600, 768), 2);
    assert_eq!(aspect_ratio(640, 768), 0);
}
