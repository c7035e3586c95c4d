use prawnd::schedule::{
    extract_timer_id, register_command, register_decision, stop_command, stop_unit_name,
    ScheduleError,
};

#[test]
fn extracts_the_identifier_between_the_markers() {
    let out = "Running timer as unit: run-abc123.timer; anchor point is now";
    assert_eq!(extract_timer_id(out), Some(String::from("abc123")));
}

#[test]
fn extraction_uses_the_first_occurrence_of_each_marker() {
    let out = "run-first.timer and later run-second.timer";
    assert_eq!(extract_timer_id(out), Some(String::from("first")));
    // the suffix search starts after the prefix marker
    let out2 = ".timer before run-x.timer";
    assert_eq!(extract_timer_id(out2), Some(String::from("x")));
}

#[test]
fn extraction_fails_without_both_markers() {
    assert_eq!(extract_timer_id("no markers at all"), None);
    assert_eq!(extract_timer_id("run-abc but no suffix"), None);
    assert_eq!(extract_timer_id("suffix only .timer"), None);
    // suffix before the prefix only
    assert_eq!(extract_timer_id("x.timer then run-y"), None);
}

#[test]
fn extraction_handles_an_empty_identifier() {
    assert_eq!(extract_timer_id("run-.timer"), Some(String::new()));
}

#[test]
fn stop_naming_is_prefix_id_suffix() {
    assert_eq!(stop_unit_name("abc123"), "run-abc123.timer");
    let args = stop_command("abc123");
    assert_eq!(args.len(), 4);
    assert_eq!(args[0], "systemctl");
    assert_eq!(args[1], "--user");
    assert_eq!(args[2], "stop");
    assert_eq!(args[3], "run-abc123.timer");
}

#[test]
fn successful_registration_recovers_and_hands_back_the_identifier() {
    let stderr = String::from("Running timer as unit: run-abc123.timer");
    let r = register_decision(true, String::new(), stderr);
    assert_eq!(r, Ok(String::from("abc123")));
}

#[test]
fn registration_without_the_marker_is_a_protocol_failure() {
    let r = register_decision(true, String::new(), String::from("started fine"));
    assert_eq!(r, Err(ScheduleError::Protocol));
}

#[test]
fn failed_registration_carries_both_output_streams() {
    let r = register_decision(
        false,
        String::from("some stdout"),
        String::from("some stderr"),
    );
    assert_eq!(
        r,
        Err(ScheduleError::ExternalProcess {
            stdout: String::from("some stdout"),
            stderr: String::from("some stderr"),
        })
    );
}

#[test]
fn register_command_renders_the_epoch_in_utc() {
    let args = register_command(0, 0).unwrap();
    assert_eq!(args.len(), 4);
    assert_eq!(args[0], "systemd-run");
    assert_eq!(args[1], "--user");
    assert_eq!(args[2], "--on-calendar=1970-01-01 00:00:00");
    assert_eq!(args[3], "prawnd");
}

#[test]
fn register_command_applies_the_offset() {
    // one hour east of UTC shifts the rendered wall-clock time forward
    let args = register_command(0, 3600).unwrap();
    assert_eq!(args[2], "--on-calendar=1970-01-01 01:00:00");
    let args2 = register_command(1_700_000_000, -3600).unwrap();
    assert_eq!(args2[2], "--on-calendar=2023-11-14 21:13:20");
}

#[test]
fn register_command_rejects_an_out_of_range_offset() {
    assert!(register_command(0, 86_400).is_none());
    assert!(register_command(0, -86_400).is_none());
}
