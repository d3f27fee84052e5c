use crowd_pilot_serializer_core::compute_changed_block_lines;

#[test]
fn test_compute_changed_block_simple_replace() {
    let before = "line1\nline2\nline3";
    let after = "line1\nmodified\nline3";
    let result = compute_changed_block_lines(before, after).unwrap();
    assert_eq!(result.start_before, 2);
    assert_eq!(result.end_before, 2);
    assert_eq!(result.replacement_lines, vec!["modified"]);
}

#[test]
fn test_compute_changed_block_insert() {
    let before = "line1\nline3";
    let after = "line1\nline2\nline3";
    let result = compute_changed_block_lines(before, after).unwrap();
    assert!(result.replacement_lines.contains(&"line2".to_string()));
}

#[test]
fn test_compute_changed_block_delete() {
    let before = "line1\nline2\nline3";
    let after = "line1\nline3";
    let result = compute_changed_block_lines(before, after).unwrap();
    assert_eq!(result.start_before, 2);
    assert_eq!(result.end_before, 2);
}

#[test]
fn test_compute_changed_block_equal_inputs_fail() {
    assert!(compute_changed_block_lines("same\ntext", "same\ntext").is_err());
}

#[test]
fn test_compute_changed_block_reapply_replacement() {
    // replacing the returned line range with the replacement lines turns
    // the old text into the new one
    let before = "a\nb\nc\nd";
    let after = "a\nx\ny\nd";
    let cb = compute_changed_block_lines(before, after).unwrap();
    let before_lines: Vec<&str> = before.split('\n').collect();
    let mut rebuilt: Vec<String> = Vec::new();
    for line in &before_lines[..cb.start_before - 1] {
        rebuilt.push(line.to_string());
    }
    for line in &cb.replacement_lines {
        rebuilt.push(line.clone());
    }
    for line in &before_lines[cb.end_before..] {
        rebuilt.push(line.to_string());
    }
    assert_eq!(rebuilt.join("\n"), after);
}

#[test]
fn test_compute_changed_block_insertion_encoding() {
    // a pure insertion is encoded as end_before < start_before
    let before = "a\nb";
    let after = "a\nb\nc";
    let cb = compute_changed_block_lines(before, after).unwrap();
    assert!(cb.end_before < cb.start_before);
    assert_eq!(cb.replacement_lines, vec!["c"]);
}
