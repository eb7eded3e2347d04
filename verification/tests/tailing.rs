use strikers_notifier::lines::split_lines;
use strikers_notifier::tailer::Tailer;

fn bytes(s: &str) -> Vec<u8> {
    s.as_bytes().to_vec()
}

#[test]
fn empty_input_yields_nothing() {
    let (lines, consumed) = split_lines(&Vec::new());
    assert!(lines.is_empty());
    assert_eq!(consumed, 0);
}

#[test]
fn partial_line_is_not_consumed() {
    let (lines, consumed) = split_lines(&bytes("abc"));
    assert!(lines.is_empty());
    assert_eq!(consumed, 0);
}

#[test]
fn single_terminated_line() {
    let (lines, consumed) = split_lines(&bytes("hello\n"));
    assert_eq!(lines.len(), 1);
    assert_eq!(lines[0], bytes("hello"));
    assert_eq!(consumed, 6);
}

#[test]
fn trailing_fragment_left_over() {
    let (lines, consumed) = split_lines(&bytes("a\nb\ncde"));
    assert_eq!(lines.len(), 2);
    assert_eq!(lines[0], bytes("a"));
    assert_eq!(lines[1], bytes("b"));
    assert_eq!(consumed, 4);
}

#[test]
fn empty_lines_are_lines() {
    let (lines, consumed) = split_lines(&bytes("\n\nx"));
    assert_eq!(lines.len(), 2);
    assert_eq!(lines[0], bytes(""));
    assert_eq!(lines[1], bytes(""));
    assert_eq!(consumed, 2);
}

#[test]
fn scenario_growing_file() {
    // The file starts empty and the cursor at offset 0.
    let mut t = Tailer::new(0);

    // "hello\n" is appended: one line, cursor at 6.
    let lines = t.drain(&bytes("hello\n"));
    assert_eq!(lines.len(), 1);
    assert_eq!(lines[0], bytes("hello"));
    assert_eq!(t.position(), 6);

    // "wor" is appended without a terminator: nothing yielded, cursor stays.
    let lines = t.drain(&bytes("wor"));
    assert!(lines.is_empty());
    assert_eq!(t.position(), 6);

    // "ld\n" arrives; the next read starts again at offset 6 and sees the
    // whole of "world\n": the full line comes out exactly once, cursor at 12.
    let lines = t.drain(&bytes("world\n"));
    assert_eq!(lines.len(), 1);
    assert_eq!(lines[0], bytes("world"));
    assert_eq!(t.position(), 12);
}

#[test]
fn zero_new_bytes_leave_cursor_unchanged() {
    let mut t = Tailer::new(42);
    let lines = t.drain(&Vec::new());
    assert!(lines.is_empty());
    assert_eq!(t.position(), 42);
}

#[test]
fn scenario_truncation_resets_cursor() {
    // The cursor sits at 500 when the file shrinks to 50 bytes.
    let mut t = Tailer::new(500);
    let truncated = t.begin_cycle(50);
    assert!(truncated);
    assert_eq!(t.position(), 0);

    // The next drain reads from the start of the new content.
    let lines = t.drain(&bytes("fresh\n"));
    assert_eq!(lines.len(), 1);
    assert_eq!(lines[0], bytes("fresh"));
    assert_eq!(t.position(), 6);
}

#[test]
fn growth_is_not_truncation() {
    let mut t = Tailer::new(10);
    assert!(!t.begin_cycle(10));
    assert_eq!(t.position(), 10);
    assert!(!t.begin_cycle(250));
    assert_eq!(t.position(), 10);
}

#[test]
fn no_loss_across_many_chunked_drains() {
    // The same appended text, split at arbitrary points (including
    // mid-line), yields the same lines exactly once each, in order.
    let whole = "first line\nsecond\n\nthird one\ntail";
    let cuts: &[usize] = &[0, 3, 11, 12, 19, 20, 29, 33];
    let mut t = Tailer::new(0);
    let mut collected: Vec<Vec<u8>> = Vec::new();
    for w in cuts.windows(2) {
        // Each read starts at the cursor and covers everything appended.
        let upto = w[1];
        let chunk = bytes(&whole[t.position() as usize..upto]);
        collected.extend(t.drain(&chunk));
    }
    let chunk = bytes(&whole[t.position() as usize..]);
    collected.extend(t.drain(&chunk));

    let expected = vec![
        bytes("first line"),
        bytes("second"),
        bytes(""),
        bytes("third one"),
    ];
    assert_eq!(collected, expected);
    // The unterminated tail stays unconsumed.
    assert_eq!(t.position() as usize, whole.len() - "tail".len());
}
