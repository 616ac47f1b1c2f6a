use edge_relay::command::{Command, MAX_STRENGTH};

#[test]
fn vibrate_formats_action() {
    assert_eq!(Command::vibrate(15, 30).action(), "Vibrate:15");
}

#[test]
fn vibrate_clamps_above_max() {
    assert_eq!(Command::vibrate(99, 0).action(), "Vibrate:20");
    assert_eq!(Command::vibrate(21, 0).action(), "Vibrate:20");
    assert_eq!(Command::vibrate(u8::MAX, 0).action(), "Vibrate:20");
}

#[test]
fn vibrate_at_max_is_unchanged() {
    assert_eq!(Command::vibrate(20, 0).action(), "Vibrate:20");
}

#[test]
fn vibrate_zero_is_valid() {
    assert_eq!(Command::vibrate(0, 0).action(), "Vibrate:0");
}

#[test]
fn vibrate_keeps_time() {
    assert_eq!(Command::vibrate(5, 42).time_sec(), 42);
    assert_eq!(Command::vibrate(5, 0).time_sec(), 0);
}

#[test]
fn stop_action_and_time() {
    let s = Command::stop();
    assert_eq!(s.action(), "Stop");
    assert_eq!(s.time_sec(), 0);
}

#[test]
fn commands_compare_by_value() {
    assert_eq!(Command::vibrate(3, 1), Command::vibrate(3, 1));
    assert_ne!(Command::vibrate(3, 1), Command::vibrate(4, 1));
    assert_ne!(Command::vibrate(3, 1), Command::vibrate(3, 2));
    assert_ne!(Command::vibrate(0, 0), Command::stop());
}

#[test]
fn server_body_has_expected_shape() {
    let body = Command::vibrate(10, 20).to_server_body("TOK", "gf");
    assert_eq!(body.token, "TOK");
    assert_eq!(body.uid, "gf");
    assert_eq!(body.command, "Function");
    assert_eq!(body.action, "Vibrate:10");
    assert_eq!(body.time_sec, 20);
    assert_eq!(body.api_ver, 1);
}

#[test]
fn server_body_stop_payload() {
    let v = Command::stop().to_server_body("T", "u");
    assert_eq!(v.action, "Stop");
    assert_eq!(v.command, "Function");
    assert_eq!(v.api_ver, 1);
    assert_eq!(v.time_sec, 0);
}

#[test]
fn server_body_carries_credentials() {
    let v = Command::vibrate(1, 1).to_server_body("secret", "gf");
    assert_eq!(v.token, "secret");
    assert_eq!(v.uid, "gf");
}

#[test]
fn max_strength_constant_is_twenty() {
    assert_eq!(MAX_STRENGTH, 20);
}

#[test]
fn vibrate_single_and_double_digit_strengths() {
    assert_eq!(Command::vibrate(9, 0).action(), "Vibrate:9");
    assert_eq!(Command::vibrate(10, 0).action(), "Vibrate:10");
    assert_eq!(Command::vibrate(19, 0).action(), "Vibrate:19");
}

#[test]
fn clamping_is_idempotent() {
    assert_eq!(Command::vibrate(200, 7), Command::vibrate(MAX_STRENGTH, 7));
    assert_eq!(Command::vibrate(21, 7), Command::vibrate(20, 7));
}

#[test]
fn server_body_keeps_run_time_and_unicode_credentials() {
    let v = Command::vibrate(3, u32::MAX).to_server_body("tök", "ünï");
    assert_eq!(v.time_sec, u32::MAX);
    assert_eq!(v.token, "tök");
    assert_eq!(v.uid, "ünï");
    assert_eq!(v.action, "Vibrate:3");
}

#[test]
fn cloned_command_is_equal() {
    let c = Command::vibrate(12, 3);
    assert_eq!(c.clone(), c);
    assert_eq!(Command::stop().clone(), Command::stop());
}
