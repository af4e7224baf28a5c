use whatisit::{extract_command, looks_degenerate, strip_cli_chrome};

#[test]
fn extracts_decorated_commands() {
    assert_eq!(
        extract_command("```bash\nfind . -name '*.rs'\n```"),
        "find . -name '*.rs'"
    );
    assert_eq!(extract_command("Sure:\n$ ls -la"), "ls -la");
    assert_eq!(
        extract_command("<think>hmm</think>\n`du -sh *`"),
        "du -sh *"
    );
}

#[test]
fn strips_cli_output() {
    let text = "banner\n> request\n|\u{8} \u{8}find . -type f\n[ Prompt: 1 t/s ]\nExiting...";
    assert_eq!(strip_cli_chrome(text), "find . -type f");
}

#[test]
fn detects_flag_loops() {
    assert!(looks_degenerate("zip -r -9 -q -9 -j -9 -0 -9 foo"));
    assert!(!looks_degenerate("find . -type f -name '*.rs' -print"));
}

#[test]
fn short_commands_are_never_degenerate() {
    assert!(!looks_degenerate("-9 -9 -9 -9 -9 -9 -9"));
    assert!(looks_degenerate("-9 -9 -9 -9 -9 -9 -9 -9"));
    assert!(!looks_degenerate("a a a a a a a a"));
    assert!(!looks_degenerate(""));
}

#[test]
fn unclosed_think_block_drops_the_rest() {
    assert_eq!(extract_command("ls -l <think> still thinking"), "ls -l");
    assert_eq!(extract_command("<think>a</think>pwd<think>b</think>"), "pwd");
}

#[test]
fn fence_with_sh_tag_and_prose_around() {
    assert_eq!(
        extract_command("Here you go:\n```sh\n  echo hi\n```\nthat prints hi"),
        "echo hi"
    );
    assert_eq!(extract_command("```\nuptime\n```"), "uptime");
}

#[test]
fn lead_ins_are_matched_without_case() {
    assert_eq!(extract_command("The Command Is: whoami"), "whoami");
    assert_eq!(extract_command("ANSWER:   date"), "date");
    assert_eq!(extract_command("command:\n> git status"), "git status");
}

#[test]
fn comment_and_blank_lines_are_skipped() {
    assert_eq!(extract_command("# list files\n\n   ls\nrm x"), "ls");
    assert_eq!(extract_command("#only a comment"), "");
    assert_eq!(extract_command("``"), "");
    assert_eq!(extract_command("` `\nfree -h"), "free -h");
    assert_eq!(extract_command("$ "), "$");
}

#[test]
fn extracted_command_is_one_line_without_controls() {
    let out = extract_command("\u{1b}[1m  $ echo done  \u{1b}[0m\r\nnext");
    assert_eq!(out, "echo done");
    assert!(!out.contains('\n'));
}

#[test]
fn chrome_without_prompt_echo_keeps_everything_before_footer() {
    assert_eq!(strip_cli_chrome("  ls -a\r[ Prompt: 3 t/s ]\nrest"), "ls -a");
    assert_eq!(strip_cli_chrome("> a\n> b\nuname -a\nExiting..."), "uname -a");
    assert_eq!(strip_cli_chrome(""), "");
}

#[test]
fn leading_think_block_is_ignored() {
    assert_eq!(
        extract_command("<think>plan: list</think>\n  ls -la "),
        extract_command("\n  ls -la ")
    );
    assert_eq!(extract_command("<think>x</think>$ df -h"), "df -h");
}

#[test]
fn prompt_echo_and_above_are_dropped() {
    assert_eq!(
        strip_cli_chrome("banner\nmore\n> make a dir\nmkdir x\ncd x"),
        strip_cli_chrome("mkdir x\ncd x")
    );
}

#[test]
fn footer_and_below_are_dropped() {
    assert_eq!(
        strip_cli_chrome("pwd\n[ Prompt: 3 t/s | Generation: 9 t/s ]\nExiting..."),
        strip_cli_chrome("pwd")
    );
    assert_eq!(strip_cli_chrome("pwd\n\nExiting...\nbye"), strip_cli_chrome("pwd\n"));
}
