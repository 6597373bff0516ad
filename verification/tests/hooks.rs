use dioxus_dnd_kit::hooks::{listener_step, ListenerStep};

#[test]
fn awaited_message_notifies() {
    let got: Result<String, ()> = Ok("mouseup".to_string());
    assert_eq!(listener_step(&got, "mouseup"), ListenerStep::Notify);
}

#[test]
fn other_message_is_ignored() {
    let got: Result<String, ()> = Ok("resize".to_string());
    assert_eq!(listener_step(&got, "mouseup"), ListenerStep::Ignore);
}

#[test]
fn failed_channel_stops() {
    let got: Result<String, &str> = Err("closed");
    assert_eq!(listener_step(&got, "resize"), ListenerStep::Stop);
}
