use crowd_pilot_serializer_core::{
    apply_backspaces, apply_change, clean_text, escape_single_quotes_for_sed, fenced_block,
    floor_char_boundary, line_numbered_output, normalize_terminal_output,
    serialize_compute_viewport,
};

#[test]
fn test_clean_text() {
    assert_eq!(clean_text("hello\r\nworld\r"), "hello\nworld");
    // trailing whitespace including newlines is removed
    assert_eq!(clean_text("test  \n  "), "test");
    assert_eq!(clean_text("test\n"), "test");
    assert_eq!(clean_text("test  "), "test");
}

#[test]
fn test_fenced_block() {
    assert_eq!(
        fenced_block(Some("bash"), "echo hello"),
        "```bash\necho hello\n```\n"
    );
    assert_eq!(fenced_block(None, "code"), "```\ncode\n```\n");
}

#[test]
fn test_fenced_block_lowercases_language() {
    assert_eq!(fenced_block(Some("Bash"), "x"), "```bash\nx\n```\n");
}

#[test]
fn test_apply_change() {
    assert_eq!(apply_change("hello", 5, 0, " world"), "hello world");
    assert_eq!(apply_change("hello", 0, 5, "hi"), "hi");
    // offset=2 (after "he"), length=2 (delete "ll"), insert "y"
    assert_eq!(apply_change("hello", 2, 2, "y"), "heyo");
    assert_eq!(apply_change("hello", 2, 1, "y"), "heylo");
}

#[test]
fn test_apply_change_pads_past_end() {
    // an offset past the end pads with spaces first
    assert_eq!(apply_change("ab", 5, 0, "x"), "ab   x");
}

#[test]
fn test_apply_change_unescapes_newlines() {
    assert_eq!(apply_change("ab", 2, 0, "\\nc"), "ab\nc");
}

#[test]
fn test_line_numbered_output() {
    let content = "line1\nline2\nline3";
    let output = line_numbered_output(content, Some(2), Some(3));
    assert!(output.contains("     2\tline2"));
    assert!(output.contains("     3\tline3"));
}

#[test]
fn test_line_numbered_output_full() {
    let out = line_numbered_output("a\nb", None, None);
    assert_eq!(out, "     1\ta\n     2\tb");
    assert_eq!(line_numbered_output("", None, None), "");
}

#[test]
fn test_viewport() {
    let vp = serialize_compute_viewport(100, 50, 10);
    assert_eq!(vp.start, 40);
    assert_eq!(vp.end, 60);

    let vp = serialize_compute_viewport(100, 5, 10);
    assert_eq!(vp.start, 1);
    assert_eq!(vp.end, 15);
}

#[test]
fn test_viewport_empty_file() {
    let vp = serialize_compute_viewport(0, 1, 10);
    assert_eq!(vp.start, 1);
    assert_eq!(vp.end, 0);
}

#[test]
fn test_apply_backspaces() {
    assert_eq!(apply_backspaces("abc\u{8}d"), "abd");
    assert_eq!(apply_backspaces("\u{8}\u{8}x"), "x");
    assert_eq!(apply_backspaces("plain"), "plain");
}

#[test]
fn test_escape_single_quotes_for_sed() {
    assert_eq!(escape_single_quotes_for_sed("a'b"), "a'\"'\"'b");
    assert_eq!(escape_single_quotes_for_sed("back\\slash"), "back\\\\slash");
}

#[test]
fn test_normalize_terminal_output() {
    // CRLF, a CSI color sequence and a BEL
    let raw = "hello\r\nworld\x1b[31mRED\x1b[0m\x07\n";
    assert_eq!(normalize_terminal_output(raw), "hello\nworldRED\n");
}

#[test]
fn test_normalize_terminal_output_cr_overwrite() {
    // carriage returns keep the last non-empty field of each line
    assert_eq!(normalize_terminal_output("25%\r50%\r100%"), "100%");
}

#[test]
fn test_normalize_terminal_output_osc() {
    // a BEL-terminated OSC title sequence is removed
    assert_eq!(normalize_terminal_output("\x1b]0;title\x07body"), "body");
}

#[test]
fn test_normalize_terminal_output_idempotent_on_plain_text() {
    let once = normalize_terminal_output("a\rb\nplain");
    let twice = normalize_terminal_output(&once);
    assert_eq!(once, twice);
}

#[test]
fn test_floor_char_boundary() {
    let s = "a\u{e9}b"; // 'é' occupies two bytes
    assert_eq!(floor_char_boundary(s, 0), 0);
    assert_eq!(floor_char_boundary(s, 2), 1);
    assert_eq!(floor_char_boundary(s, 3), 3);
    assert_eq!(floor_char_boundary(s, 99), s.len());
}
