use codescout::platform::windows::{
    denied_read_prefixes, listing_mentions_pid, lsp_binary_name, shell_command, shell_tokenize,
};

#[test]
fn tokenize_splits_on_spaces() {
    assert_eq!(shell_tokenize("git status  -s").unwrap(), vec!["git", "status", "-s"]);
}

#[test]
fn tokenize_groups_quoted_text() {
    assert_eq!(
        shell_tokenize("echo \"hello world\" done").unwrap(),
        vec!["echo", "hello world", "done"]
    );
}

#[test]
fn tokenize_drops_quotes_inside_words() {
    assert_eq!(shell_tokenize("a\"b c\"d").unwrap(), vec!["ab cd"]);
}

#[test]
fn tokenize_empty_quotes_give_no_token() {
    assert_eq!(shell_tokenize("x \"\" y").unwrap(), vec!["x", "y"]);
}

#[test]
fn tokenize_empty_line() {
    assert!(shell_tokenize("").unwrap().is_empty());
    assert!(shell_tokenize("   ").unwrap().is_empty());
}

#[test]
fn tokenize_unclosed_quote_fails() {
    assert_eq!(shell_tokenize("echo \"oops").unwrap_err(), "unclosed quote");
}

#[test]
fn shell_command_uses_cmd_exe() {
    let (prog, args) = shell_command("dir /b");
    assert_eq!(prog, "cmd.exe");
    assert_eq!(args, vec!["/C", "dir /b"]);
}

#[test]
fn lsp_binary_name_cmd_launchers() {
    assert_eq!(lsp_binary_name("typescript-language-server"), "typescript-language-server.cmd");
    assert_eq!(lsp_binary_name("pyright-langserver"), "pyright-langserver.cmd");
    assert_eq!(lsp_binary_name("bash-language-server"), "bash-language-server.cmd");
}

#[test]
fn lsp_binary_name_exe_otherwise() {
    assert_eq!(lsp_binary_name("rust-analyzer"), "rust-analyzer.exe");
    assert_eq!(lsp_binary_name("gopls"), "gopls.exe");
}

#[test]
fn denied_prefixes_cover_credentials() {
    let p = denied_read_prefixes();
    assert_eq!(p.len(), 10);
    assert_eq!(p[0], "~/.ssh");
    assert!(p.contains(&"~/.git-credentials"));
    assert!(p.contains(&"~/.docker/config.json"));
}

#[test]
fn listing_mentions_running_pid() {
    let out = "notepad.exe                  4242 Console                    1     12,345 K\r\n";
    assert!(listing_mentions_pid(out, 4242));
    assert!(!listing_mentions_pid("INFO: No tasks are running which match the specified criteria.", 4242));
}

#[test]
fn tokenize_fails_exactly_on_odd_quotes() {
    assert!(shell_tokenize("a \"b\" \"c").is_err());
    assert!(shell_tokenize("a \"b\" \"c\"").is_ok());
}
