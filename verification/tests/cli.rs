use whatisit::{default_threads, parse_args};

fn args(v: &[&str]) -> Vec<String> {
    v.iter().map(|s| s.to_string()).collect()
}

#[test]
fn flags_only_count_before_request() {
    let args = parse_args(
        vec!["-q".into(), "list".into(), "files".into(), "-e".into()],
        2,
    )
    .unwrap();
    assert!(args.quiet);
    assert!(!args.execute);
    assert_eq!(args.words, ["list", "files", "-e"]);
}

#[test]
fn number_flags() {
    let o = parse_args(args(&["-n", "3", "--threads", "+2", "-t", "x"]), 4).unwrap();
    assert_eq!(o.count, 3);
    assert_eq!(o.threads, 2);
    assert!(o.timing);
    assert_eq!(o.words, ["x"]);
    let o = parse_args(args(&["-n5", "--num", "6", "go"]), 4).unwrap();
    assert_eq!(o.count, 6);
    assert_eq!(o.threads, 4);
}

#[test]
fn number_flag_errors() {
    assert_eq!(parse_args(args(&["-n"]), 2).unwrap_err(), "-n needs a number");
    assert_eq!(
        parse_args(args(&["--threads", "0", "x"]), 2).unwrap_err(),
        "--threads needs a positive number"
    );
    assert_eq!(
        parse_args(args(&["--num", "two"]), 2).unwrap_err(),
        "--num needs a positive number"
    );
    assert_eq!(parse_args(args(&["-n0"]), 2).unwrap_err(), "-n needs a positive number");
    assert_eq!(
        parse_args(args(&["-n99999999999999999999999"]), 2).unwrap_err(),
        "-n needs a positive number"
    );
    assert_eq!(parse_args(args(&["-n", "+"]), 2).unwrap_err(), "-n needs a positive number");
}

#[test]
fn double_dash_and_other_words_start_the_request() {
    let o = parse_args(args(&["-e", "--", "-q", "now"]), 2).unwrap();
    assert!(o.execute);
    assert!(!o.quiet);
    assert_eq!(o.words, ["-q", "now"]);
    let o = parse_args(args(&["-nx", "-e"]), 2).unwrap();
    assert_eq!(o.count, 1);
    assert_eq!(o.words, ["-nx", "-e"]);
    let o = parse_args(args(&["--execute", "--quiet", "--timing"]), 3).unwrap();
    assert!(o.execute && o.quiet && o.timing);
    assert!(o.words.is_empty());
}

#[test]
fn default_thread_count() {
    assert_eq!(default_threads(None), 1);
    assert_eq!(default_threads(Some(1)), 1);
    assert_eq!(default_threads(Some(5)), 3);
    assert_eq!(default_threads(Some(64)), 4);
    assert_eq!(default_threads(Some(0)), 1);
}

#[test]
fn later_arguments_only_extend_the_request() {
    let o = parse_args(args(&["-q", "list", "files"]), 2).unwrap();
    let o2 = parse_args(args(&["-q", "list", "files", "-e", "--threads", "3"]), 2).unwrap();
    assert_eq!((o2.execute, o2.quiet, o2.timing, o2.count, o2.threads), (o.execute, o.quiet, o.timing, o.count, o.threads));
    assert_eq!(o2.words, ["list", "files", "-e", "--threads", "3"]);
}
