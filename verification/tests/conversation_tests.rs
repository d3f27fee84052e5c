use crowd_pilot_serializer_core::{
    CharApproxTokenizer, ConversationStateManager, ConversationStateManagerConfig, Tokenizer,
};

fn default_manager() -> ConversationStateManager<CharApproxTokenizer> {
    ConversationStateManager::new(CharApproxTokenizer, Default::default())
}

#[test]
fn test_basic_tab_event() {
    let mut manager = default_manager();

    manager.handle_tab_event("/test/file.rs", Some("fn main() {\n    println!(\"hello\");\n}"));

    let messages = manager.finalize_for_model();
    assert_eq!(messages.len(), 2);
    assert_eq!(messages[0].from, "Assistant");
    assert!(messages[0].value.contains("cat -n /test/file.rs"));
    assert_eq!(messages[1].from, "User");
    assert!(messages[1].value.contains("<stdout>"));
}

#[test]
fn test_content_event() {
    let mut manager = default_manager();

    manager.handle_tab_event("/test/file.rs", Some("line1\nline2\nline3"));
    manager.handle_content_event("/test/file.rs", 6, 5, "modified");

    let messages = manager.finalize_for_model();
    // cat (open file), stdout, sed (edit), stdout
    assert!(messages.len() >= 4);
}

#[test]
fn test_terminal_command() {
    let mut manager = default_manager();

    manager.handle_terminal_command_event("cargo build");
    manager.handle_terminal_output_event("Compiling...\n");
    manager.handle_terminal_output_event("Finished\n");

    let messages = manager.finalize_for_model();
    assert_eq!(messages.len(), 2);
    assert!(messages[0].value.contains("cargo build"));
    assert!(messages[1].value.contains("Compiling"));
}

#[test]
fn test_insert_and_coalesce() {
    // three single-character insertions on line 2 merge into one sed edit
    let mut manager = default_manager();
    manager.handle_tab_event("/a.py", Some("a\nb\nc"));
    manager.handle_content_event("/a.py", 3, 0, "x");
    manager.handle_content_event("/a.py", 4, 0, "y");
    manager.handle_content_event("/a.py", 5, 0, "z");
    manager.handle_terminal_command_event("ls");

    let messages = manager.finalize_for_model();
    assert_eq!(manager.get_file_content("/a.py"), "a\nbxyz\nc");
    let sed_msgs: Vec<_> = messages
        .iter()
        .filter(|m| m.value.contains("sed -i"))
        .collect();
    assert_eq!(sed_msgs.len(), 1);
    assert!(sed_msgs[0].value.contains("sed -i '2,2c\\"));
    assert!(messages.last().unwrap().value.contains("ls") || messages[messages.len() - 2].value.contains("ls"));
}

#[test]
fn test_pure_deletion_sed() {
    // removing all of line 2 and its trailing LF yields a delete command
    let mut manager = default_manager();
    manager.handle_tab_event("/a.py", Some("a\nb\nc\nd"));
    manager.handle_content_event("/a.py", 2, 2, "");
    let messages = manager.finalize_for_model();
    assert_eq!(manager.get_file_content("/a.py"), "a\nc\nd");
    assert!(messages.iter().any(|m| m.value.contains("sed -i '2,2d' /a.py")));
}

#[test]
fn test_pure_insertion_at_end_sed() {
    // appending a line produces the end-of-file append form
    let mut manager = default_manager();
    manager.handle_tab_event("/a.py", Some("a\nb"));
    manager.handle_content_event("/a.py", 3, 0, "\\nc");
    let messages = manager.finalize_for_model();
    assert_eq!(manager.get_file_content("/a.py"), "a\nb\nc");
    assert!(messages.iter().any(|m| m.value.contains("sed -i '$a\\\nc' /a.py")));
}

#[test]
fn test_selection_on_empty_file_emits_nothing() {
    let mut manager = default_manager();
    manager.handle_selection_event("/empty.rs", 0);
    let messages = manager.finalize_for_model();
    assert_eq!(messages.len(), 0);
}

#[test]
fn test_trailing_newline_only_edit_emits_nothing() {
    let mut manager = default_manager();
    manager.handle_tab_event("/a.py", Some("a\nb"));
    let before = manager.finalize_for_model().len();
    manager.handle_content_event("/a.py", 3, 0, "\\n");
    let after = manager.finalize_for_model().len();
    assert_eq!(before, after);
    assert_eq!(manager.get_file_content("/a.py"), "a\nb\n");
}

#[test]
fn test_terminal_output_normalization_in_flush() {
    let mut manager = default_manager();
    manager.handle_terminal_command_event("run");
    manager.handle_terminal_output_event("hello\r\nworld\x1b[31mRED\x1b[0m\x07\n");
    let messages = manager.finalize_for_model();
    assert_eq!(messages.len(), 2);
    assert_eq!(messages[1].value, "<stdout>\nhello\nworldRED\n</stdout>");
}

#[test]
fn test_chunk_rollover() {
    // with a 100-token budget and one token per four bytes, a long session
    // splits into several finalized conversations
    let config = ConversationStateManagerConfig {
        max_tokens_per_conversation: Some(100),
        min_conversation_messages: 2,
        ..Default::default()
    };
    let mut manager = ConversationStateManager::new(CharApproxTokenizer, config);
    for i in 0..40 {
        manager.handle_terminal_command_event(&format!("command number {} with some padding text", i));
        manager.handle_terminal_output_event(&format!("output line {} with some padding text\n", i));
        manager.handle_terminal_focus_event();
    }
    let conversations = manager.get_conversations();
    assert!(conversations.len() >= 2);
    for c in &conversations {
        assert!(c.messages.len() >= 2);
        assert!(c.messages.iter().any(|m| m.from == "User"));
        assert!(c.messages.iter().any(|m| m.from == "Assistant"));
        assert!(c.token_count <= 100 + 2048 - 1);
    }
}

#[test]
fn test_git_branch_checkout() {
    let mut manager = default_manager();
    manager.handle_git_branch_checkout_event("Switched from 'main' to 'feature/x'");
    let messages = manager.finalize_for_model();
    assert_eq!(messages.len(), 1);
    assert!(messages[0].value.contains("git checkout feature/x"));
}

#[test]
fn test_git_branch_checkout_quoting() {
    let mut manager = default_manager();
    manager.handle_git_branch_checkout_event("checkout to 'weird branch'");
    let messages = manager.finalize_for_model();
    assert_eq!(messages.len(), 1);
    assert!(messages[0].value.contains("git checkout 'weird branch'"));
}

#[test]
fn test_git_branch_checkout_no_match() {
    let mut manager = default_manager();
    manager.handle_git_branch_checkout_event("no branch pattern here");
    let messages = manager.finalize_for_model();
    assert_eq!(messages.len(), 0);
}

#[test]
fn test_reset_clears_state() {
    let mut manager = default_manager();
    manager.handle_tab_event("/a.py", Some("x"));
    manager.reset();
    assert_eq!(manager.get_messages().len(), 0);
    assert_eq!(manager.get_file_content("/a.py"), "");
}

#[test]
fn test_get_file_content_tracks_edits() {
    let mut manager = default_manager();
    manager.handle_tab_event("/a.py", Some("x = 1\ny = 2"));
    assert_eq!(manager.get_file_content("/a.py"), "x = 1\ny = 2");
    manager.handle_content_event("/a.py", 4, 1, "9");
    assert_eq!(manager.get_file_content("/a.py"), "x = 9\ny = 2");
    assert_eq!(manager.get_file_content("/other.py"), "");
}

#[test]
fn test_single_tab_with_content_lines() {
    let mut manager = default_manager();
    manager.handle_tab_event("/a.py", Some("x = 1\ny = 2"));
    let messages = manager.finalize_for_model();
    assert_eq!(messages.len(), 2);
    assert!(messages[0].value.contains("```bash\ncat -n /a.py"));
    assert!(messages[1].value.contains("     1\tx = 1"));
    assert!(messages[1].value.contains("     2\ty = 2"));
}

#[test]
fn test_tokenizer_truncation_cap() {
    let tok = CharApproxTokenizer;
    let text = "abcdefgh".repeat(100);
    let truncated = tok.truncate_to_max_tokens(&text, 3);
    assert!(tok.count_tokens(&truncated) <= 3);
    assert_eq!(tok.count_tokens("abcdefgh"), 2);
}

#[test]
fn test_viewport_commands_followed_by_stdout() {
    // every assistant message that shows file state is immediately
    // followed by exactly one user stdout message
    let mut manager = default_manager();
    manager.handle_tab_event("/a.py", Some("a\nb\nc\nd\ne"));
    manager.handle_content_event("/a.py", 2, 1, "B");
    manager.handle_terminal_command_event("make");
    manager.handle_terminal_output_event("done\n");
    manager.handle_tab_event("/b.py", Some("x"));
    let messages = manager.finalize_for_model();
    for (i, m) in messages.iter().enumerate() {
        if m.from == "Assistant" && (m.value.contains("cat -n") || m.value.contains("sed -i")) {
            assert!(i + 1 < messages.len());
            assert_eq!(messages[i + 1].from, "User");
            assert!(messages[i + 1].value.starts_with("<stdout>\n"));
        }
    }
}

#[test]
fn test_default_system_prompt_mentions_viewport_lines() {
    let prompt = crowd_pilot_serializer_core::default_system_prompt(10);
    assert!(prompt.contains("exactly ONE bash code block"));
    assert!(prompt.contains("viewports of 21 lines"));
    assert!(prompt.contains("`Ni\\`, `$a\\`, `S,Ed` and `S,Ec\\`"));
}
