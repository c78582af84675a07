use orbutils::notify::{notify_message, parse_notification, toast_x, TOAST_H, TOAST_W};

fn args(v: &[&str]) -> Vec<String> {
    v.iter().map(|s| s.to_string()).collect()
}

#[test]
fn message_title_and_body() {
    assert_eq!(notify_message(&args(&["Update", "3 packages"])), Some("Update\n3 packages".to_string()));
}

#[test]
fn message_title_newlines_become_spaces() {
    assert_eq!(
        notify_message(&args(&["two\nlines", "body\nstays"])),
        Some("two lines\nbody\nstays".to_string())
    );
}

#[test]
fn message_without_body_or_title() {
    assert_eq!(notify_message(&args(&["Only"])), Some("Only\n".to_string()));
    assert_eq!(notify_message(&args(&["a", "b", "ignored"])), Some("a\nb".to_string()));
    assert_eq!(notify_message(&Vec::new()), None);
}

#[test]
fn parse_splits_on_first_newline_and_trims() {
    assert_eq!(
        parse_notification("  Title \n body text \nmore\n"),
        Some(("Title".to_string(), "body text \nmore".to_string()))
    );
    assert_eq!(parse_notification("only"), Some(("only".to_string(), String::new())));
}

#[test]
fn parse_blank_is_nothing() {
    assert_eq!(parse_notification(""), None);
    assert_eq!(parse_notification(" \n\t \n"), None);
}

#[test]
fn parse_empty_title_line() {
    assert_eq!(parse_notification("\nbody"), Some((String::new(), "body".to_string())));
}

#[test]
fn message_round_trip() {
    // what eos-notify writes, eos-notifyd reads back
    let m = notify_message(&args(&[" Updates\navailable ", "  run pkg upgrade  "])).unwrap();
    assert_eq!(
        parse_notification(&m),
        Some(("Updates available".to_string(), "run pkg upgrade".to_string()))
    );
}

#[test]
fn toast_position_and_size() {
    assert_eq!(toast_x(1920), 1564);
    assert_eq!(toast_x(800), 444);
    assert_eq!(toast_x(100), -256);
    assert_eq!((TOAST_W, TOAST_H), (340, 84));
}
