use strikers_notifier::matcher::{is_match, plan_notifications};
use strikers_notifier::tailer::Tailer;

const PAYLOAD: &str =
    "Matchmaking Status: {\"state\":\"StartingGame\",\"idle\":{\"timestamp\":\"\",\"state\":\"\"},";

/// A line whose bytes [150, 229) are exactly the payload.
fn matching_line() -> Vec<u8> {
    let mut l = vec![b'x'; 150];
    l.extend_from_slice(PAYLOAD.as_bytes());
    l
}

#[test]
fn payload_window_is_79_bytes() {
    assert_eq!(PAYLOAD.len(), 79);
    assert_eq!(matching_line().len(), 229);
}

#[test]
fn exact_window_matches() {
    assert!(is_match(&matching_line()));
}

#[test]
fn trailing_bytes_do_not_disturb_the_window() {
    let mut l = matching_line();
    l.extend_from_slice(b"\"queue\":\"ranked\"}");
    assert!(is_match(&l));
}

#[test]
fn short_line_never_matches() {
    // 100 bytes is shorter than the window's end: no match and no failure.
    let l = vec![b'a'; 100];
    assert!(!is_match(&l));
    assert!(!is_match(&Vec::new()));
    let l228 = vec![b'a'; 228];
    assert!(!is_match(&l228));
}

#[test]
fn one_differing_byte_breaks_the_match() {
    for at in [150usize, 200, 228] {
        let mut l = matching_line();
        l[at] = l[at].wrapping_add(1);
        assert!(!is_match(&l), "byte {at} changed but still matched");
    }
}

#[test]
fn case_matters() {
    // The payload with upper-case snake casing is a different status line
    // and must not match.
    let other = PAYLOAD.replace("StartingGame", "STARTING_GAME");
    let mut l = vec![b'x'; 150];
    l.extend_from_slice(other.as_bytes());
    assert!(!is_match(&l));
}

#[test]
fn payload_at_wrong_offset_does_not_match() {
    let mut l = vec![b'x'; 149];
    l.extend_from_slice(PAYLOAD.as_bytes());
    l.push(b'x');
    assert!(!is_match(&l));
}

#[test]
fn one_dispatch_per_matching_line() {
    // Three consecutive matching lines plan exactly three dispatches.
    let lines = vec![matching_line(), matching_line(), matching_line()];
    let plan = plan_notifications(&lines);
    assert_eq!(plan.len(), 3);
}

#[test]
fn non_matching_lines_plan_nothing() {
    let lines = vec![vec![b'a'; 100], Vec::new(), vec![b'z'; 300]];
    let plan = plan_notifications(&lines);
    assert!(plan.is_empty());
}

#[test]
fn plan_keeps_matching_lines_in_order() {
    let mut second = matching_line();
    second.push(b'2');
    let lines = vec![
        vec![b'a'; 10],
        matching_line(),
        vec![b'b'; 300],
        second.clone(),
    ];
    let plan = plan_notifications(&lines);
    assert_eq!(plan, vec![matching_line(), second]);
}

#[test]
fn scenario_appended_match_is_detected_once() {
    // A line whose window holds the payload is appended and drained: the
    // matcher fires and exactly one dispatch is planned.
    let mut t = Tailer::new(0);
    let mut appended = matching_line();
    appended.push(b'\n');
    let lines = t.drain(&appended);
    assert_eq!(lines.len(), 1);
    assert!(is_match(&lines[0]));
    let plan = plan_notifications(&lines);
    assert_eq!(plan.len(), 1);
    assert_eq!(plan[0], matching_line());
}
