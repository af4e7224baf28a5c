use whatisit::strip_controls;

#[test]
fn removes_csi_and_osc_sequences() {
    assert_eq!(strip_controls("\u{1b}[31mred\u{1b}[0m"), "red");
    assert_eq!(strip_controls("\u{1b}]0;title\u{7}ok"), "ok");
    assert_eq!(strip_controls("\u{1b}]0;title\u{1b}\\ok"), "ok");
    assert_eq!(strip_controls("\u{1b}]0;ti\u{1b}tle\u{7}ok"), "ok");
    assert_eq!(strip_controls("a\u{1b}b"), "ab");
    assert_eq!(strip_controls("x\u{1b}[12;"), "x");
}

#[test]
fn applies_backspaces_and_drops_other_controls() {
    assert_eq!(strip_controls("ab\u{8}c"), "ac");
    assert_eq!(strip_controls("\u{8}\u{8}z"), "z");
    assert_eq!(strip_controls("a\rb\u{0}c\u{85}d"), "abcd");
    assert_eq!(strip_controls("line\n\tx"), "line\n\tx");
    assert_eq!(strip_controls("héllo ✓"), "héllo ✓");
}

#[test]
fn stripping_twice_changes_nothing() {
    let once = strip_controls("\u{1b}[1mA\u{8}\u{1b}[0mB\u{7}\r\n");
    assert_eq!(once, "B\n");
    assert_eq!(strip_controls(&once), once);
}
