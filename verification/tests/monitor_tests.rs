use simlogtail::monitor::{is_quit_key, Monitor};

#[test]
fn shows_trimmed_lines() {
    let mut m = Monitor::new(false, 10);
    assert_eq!(m.take_chunk("  hello \n"), Some("hello".to_string()));
    assert_eq!(m.take_chunk("\n"), Some(String::new()));
}

#[test]
fn compact_holds_back_blank_text() {
    let mut m = Monitor::new(true, 10);
    assert_eq!(m.take_chunk("\n"), None);
    assert_eq!(m.take_chunk("  \r\n"), None);
    assert_eq!(m.take_chunk(" next\n"), Some("next".to_string()));
    assert_eq!(m.take_chunk("after\n"), Some("after".to_string()));
}

#[test]
fn positions() {
    let mut m = Monitor::new(false, 0);
    assert!(!m.position_known());
    m.set_position(120);
    assert!(m.position_known());
    assert_eq!(m.position(), 120);
    assert!(!m.has_new_data(120));
    assert!(m.has_new_data(121));
    assert!(!m.has_new_data(100));
}

#[test]
fn quit_keys() {
    assert!(is_quit_key("q\n"));
    assert!(is_quit_key("please quit"));
    assert!(!is_quit_key("Q\n"));
    assert!(!is_quit_key("\n"));
}
