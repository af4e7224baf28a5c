use whatisit::session::{
    candidate_line, collect_candidate, decimal_chars, doctor_report, execution_verdict,
    finding_line, interpret_output, is_affirmative, llama_args, pick_location, plan_launch,
    missing_candidates, quiet_output, stderr_tail, Collect, Launch, Verdict,
};
use whatisit::{Finding, Severity, SYSTEM_PROMPT};

fn args(v: &[&str]) -> Vec<String> {
    v.iter().map(|s| s.to_string()).collect()
}

#[test]
fn launch_plans() {
    assert!(matches!(plan_launch(args(&[]), 2), Launch::Help));
    assert!(matches!(plan_launch(args(&["--help", "x"]), 2), Launch::Help));
    assert!(matches!(plan_launch(args(&["doctor"]), 2), Launch::Doctor));
    match plan_launch(args(&["-q"]), 2) {
        Launch::Usage(m) => assert_eq!(m, "give me a request in plain English"),
        _ => panic!("expected a usage error"),
    }
    match plan_launch(args(&["--num"]), 2) {
        Launch::Usage(m) => assert_eq!(m, "--num needs a number"),
        _ => panic!("expected a usage error"),
    }
    match plan_launch(args(&["-n", "2", "list", "big", "files"]), 2) {
        Launch::Request(o, prompt) => {
            assert_eq!(o.count, 2);
            assert_eq!(prompt, "list big files");
        }
        _ => panic!("expected a request"),
    }
}

#[test]
fn model_output_interpretation() {
    assert_eq!(
        interpret_output("> list\n$ ls\n[ Prompt: 9 t/s ]").unwrap(),
        "ls"
    );
    assert_eq!(
        interpret_output("> list\n\n").unwrap_err(),
        "the model returned no usable command; try rephrasing"
    );
    assert_eq!(
        interpret_output("zip -9 -9 -9 -9 a b c d").unwrap_err(),
        "the model produced a repetitive, incomplete command; try rephrasing"
    );
}

#[test]
fn error_tail_keeps_last_eight_lines() {
    let err = "1\n2\n3\n4\n5\n6\n7\n8\n9\n10\n";
    assert_eq!(stderr_tail(err), "3\n4\n5\n6\n7\n8\n9\n10");
    assert_eq!(stderr_tail("only"), "only");
    assert_eq!(stderr_tail(""), "");
}

#[test]
fn llama_arguments() {
    let a = llama_args("/m.gguf", "list files", 3, false);
    assert_eq!(a.len(), 19);
    assert_eq!(a[1], "/m.gguf");
    assert_eq!(a[3], SYSTEM_PROMPT);
    assert_eq!(a[5], "list files");
    assert_eq!(a[12], "0");
    assert_eq!(a[18], "3");
    let b = llama_args("m", "p", 12, true);
    assert_eq!(b[12], "0.6");
    assert_eq!(b[18], "12");
}

#[test]
fn decimal_text() {
    assert_eq!(decimal_chars(0), vec!['0']);
    assert_eq!(decimal_chars(907), vec!['9', '0', '7']);
    assert_eq!(decimal_chars(usize::MAX).iter().collect::<String>(), usize::MAX.to_string());
}

#[test]
fn candidates_are_kept_distinct() {
    let mut commands: Vec<String> = Vec::new();
    assert!(matches!(collect_candidate(&mut commands, Ok("ls".into())), Collect::Continue));
    assert!(matches!(collect_candidate(&mut commands, Ok("ls".into())), Collect::Continue));
    assert!(matches!(collect_candidate(&mut commands, Ok("ls -a".into())), Collect::Continue));
    assert_eq!(commands, ["ls", "ls -a"]);
    assert!(matches!(collect_candidate(&mut commands, Err("boom".into())), Collect::Stop));
    let mut none: Vec<String> = Vec::new();
    match collect_candidate(&mut none, Err("boom".into())) {
        Collect::Fail(m) => assert_eq!(m, "boom"),
        _ => panic!("expected a failure"),
    }
}

#[test]
fn execution_verdicts() {
    assert!(matches!(execution_verdict(false, 3, true, false), Verdict::Finish));
    match execution_verdict(true, 2, false, true) {
        Verdict::Refuse(m) => {
            assert_eq!(m, "refusing to guess which candidate to execute; rerun without -n")
        }
        _ => panic!(),
    }
    match execution_verdict(true, 1, true, true) {
        Verdict::Refuse(m) => assert_eq!(m, "refusing to auto-run a command flagged DANGER"),
        _ => panic!(),
    }
    match execution_verdict(true, 1, false, false) {
        Verdict::Refuse(m) => {
            assert_eq!(m, "refusing to execute without an interactive confirmation")
        }
        _ => panic!(),
    }
    assert!(matches!(execution_verdict(true, 1, false, true), Verdict::Confirm));
}

#[test]
fn report_lines() {
    let f = Finding { severity: Severity::Danger, reason: "fork bomb" };
    assert_eq!(finding_line(&f), "  !! DANGER  fork bomb");
    let c = Finding { severity: Severity::Caution, reason: "requires sudo" };
    assert_eq!(finding_line(&c), "  !  caution  requires sudo");
    assert_eq!(candidate_line(0, "ls", 1), "ls");
    assert_eq!(candidate_line(9, "ls", 12), "10. ls");
}

#[test]
fn confirmation_answers() {
    assert!(is_affirmative("y\n"));
    assert!(is_affirmative("  YES "));
    assert!(!is_affirmative("yep"));
    assert!(!is_affirmative(""));
}

#[test]
fn doctor_report_lines() {
    let (lines, code) = doctor_report(Some("/x/model".into()), None);
    assert_eq!(
        lines,
        [
            "whatisit doctor",
            "  ok   model      /x/model",
            "  FAIL llama-cli  not found"
        ]
    );
    assert_eq!(code, 1);
    let (_, code) = doctor_report(Some("a".into()), Some("b".into()));
    assert_eq!(code, 0);
}

#[test]
fn location_preference() {
    assert_eq!(pick_location(Some(("env", true)), Some(("exe", true))), Some("env"));
    assert_eq!(pick_location(Some(("env", false)), Some(("exe", true))), Some("exe"));
    assert_eq!(pick_location(None, Some(("exe", false))), None::<&str>);
    assert_eq!(pick_location::<&str>(None, None), None);
}

#[test]
fn quiet_mode_withholds_dangerous_commands() {
    assert_eq!(
        quiet_output(&vec!["rm -rf /".to_string(), "ls".to_string()]).unwrap_err(),
        "refusing to emit a command flagged DANGER"
    );
    assert_eq!(quiet_output(&vec!["sudo ls".to_string()]).unwrap(), "sudo ls");
    assert_eq!(
        missing_candidates(&Vec::new()).unwrap(),
        "the model returned no distinct command"
    );
    assert!(missing_candidates(&vec!["ls".to_string()]).is_none());
}

#[test]
fn decimal_text_reads_back() {
    for n in [0usize, 7, 10, 4096, 123456789, usize::MAX] {
        let digits = decimal_chars(n);
        assert_eq!(whatisit::cli::parse_usize(&digits), Some(n));
    }
    assert_eq!(whatisit::cli::parse_usize(&['+', '4', '2']), Some(42));
    assert_eq!(whatisit::cli::parse_usize(&['-', '1']), None);
    assert_eq!(whatisit::cli::parse_usize(&[]), None);
}
