//! The decisions of one invocation: what to do with the arguments, what to
//! make of the model's output, which candidates to keep, and whether a
//! command may run.

use vstd::prelude::*;
use crate::cli::{
    all_digits, decimal_value, is_digit, parse_args, parse_usize_spec, parsed, string_views,
    Options, OptionsView,
};
use crate::extract::{cli_answer, degenerate, extract_command, extracted, looks_degenerate, strip_cli_chrome};
use crate::safety::{check_safety, has_danger, has_danger_spec, safety_findings, Finding, Severity};
use crate::text::{
    append_chars, chars_of, is_lit, join, join_chars, join_range, lines, lower_seq, lowercase,
    split_lines, string_of, trim, trim_chars, views,
};

verus! {

pub const MODEL_NAME: &'static str = "nl2sh-1.5b-Q4_K_M.gguf";

pub const LLAMA_CLI_NAME: &'static str = "llama-cli";

pub const MODEL_ENV: &'static str = "WHATISIT_MODEL";

pub const LLAMA_CLI_ENV: &'static str = "WHATISIT_LLAMA_CLI";

pub const SYSTEM_PROMPT: &'static str = "You are a shell command generator. Output exactly one line: a single POSIX/bash command that accomplishes the user's request. No prose, no markdown fences, no explanation.";

pub open spec fn digit_char(d: nat) -> char {
    (('0' as u32) + d) as char
}

/// The decimal digits of `n`, most significant first, without leading zeros.
pub open spec fn decimal(n: nat) -> Seq<char>
    decreases n,
{
    if n < 10 {
        seq![digit_char(n)]
    } else {
        decimal(n / 10).push(digit_char(n % 10))
    }
}

pub fn decimal_chars(n: usize) -> (r: Vec<char>)
    ensures
        r@ == decimal(n as nat),
    decreases n,
{
    let d = ((n % 10) as u8 + 48u8) as char;
    assert(d == digit_char((n % 10) as nat));
    if n < 10 {
        let mut v: Vec<char> = Vec::new();
        v.push(d);
        assert(v@ =~= seq![d]);
        v
    } else {
        let mut v = decimal_chars(n / 10);
        v.push(d);
        v
    }
}

/// Reading back the decimal text of a number gives the number.
pub proof fn decimal_round_trip(n: nat)
    requires
        n <= usize::MAX,
    ensures
        parse_usize_spec(decimal(n)) == Some(n),
    decreases n,
{
    lemma_decimal(n);
}

proof fn lemma_decimal(n: nat)
    ensures
        decimal(n).len() > 0,
        decimal(n)[0] != '+',
        all_digits(decimal(n)),
        decimal_value(decimal(n)) == n,
    decreases n,
{
    let d = n % 10;
    assert((digit_char(d) as u32) == ('0' as u32) + d);
    if n < 10 {
        let t = seq![digit_char(n)];
        assert(t.drop_last() =~= Seq::<char>::empty());
        assert(decimal(n) == t);
        assert(decimal_value(t) == decimal_value(t.drop_last()) * 10 + d);
    } else {
        lemma_decimal(n / 10);
        let s = decimal(n / 10);
        let t = s.push(digit_char(n % 10));
        assert(t.drop_last() =~= s);
        assert(decimal(n) == t);
        assert(decimal_value(t) == decimal_value(s) * 10 + d);
        assert(n / 10 * 10 + n % 10 == n) by (nonlinear_arith);
        assert forall|i: int| 0 <= i < t.len() implies is_digit(#[trigger] t[i]) by {
            if i < s.len() {
                assert(is_digit(s[i]));
            }
        }
    }
}

/// What an invocation's arguments ask for.
pub enum Launch {
    /// Print the usage text.
    Help,
    /// Report where the model and llama-cli were found.
    Doctor,
    /// A usage error with its message; the exit status is 2.
    Usage(String),
    /// Generate commands for the prompt with these options.
    Request(Options, String),
}

pub enum LaunchView {
    Help,
    Doctor,
    Usage(Seq<char>),
    Request(OptionsView, Seq<char>),
}

impl View for Launch {
    type V = LaunchView;

    open spec fn view(&self) -> LaunchView {
        match self {
            Launch::Help => LaunchView::Help,
            Launch::Doctor => LaunchView::Doctor,
            Launch::Usage(m) => LaunchView::Usage(m@),
            Launch::Request(o, p) => LaunchView::Request(o@, p@),
        }
    }
}

/// No arguments or a leading `-h`/`--help` ask for help; a leading `doctor`
/// for the doctor report; otherwise the options are parsed, and the request
/// words, joined by spaces, are the prompt.
pub open spec fn launch_spec(args: Seq<Seq<char>>, default_threads: nat) -> LaunchView {
    if args.len() == 0 || args[0] == "-h"@ || args[0] == "--help"@ {
        LaunchView::Help
    } else if args[0] == "doctor"@ {
        LaunchView::Doctor
    } else {
        match parsed(args, default_threads) {
            Err(e) => LaunchView::Usage(e),
            Ok(o) => if o.words.len() == 0 {
                LaunchView::Usage("give me a request in plain English"@)
            } else {
                LaunchView::Request(o, join(o.words, " "@))
            },
        }
    }
}

/// Help comes first: no arguments, or a first argument `-h` or `--help`, ask
/// for the usage text whatever follows; a first argument `doctor` asks for the
/// doctor report.
pub proof fn help_and_doctor_come_first(args: Seq<Seq<char>>, default_threads: nat)
    ensures
        args.len() == 0 ==> launch_spec(args, default_threads) == LaunchView::Help,
        args.len() > 0 && args[0] == seq!['-', 'h'] ==> launch_spec(args, default_threads)
            == LaunchView::Help,
        args.len() > 0 && args[0] == seq!['-', '-', 'h', 'e', 'l', 'p'] ==> launch_spec(
            args,
            default_threads,
        ) == LaunchView::Help,
        args.len() > 0 && args[0] == seq!['d', 'o', 'c', 't', 'o', 'r'] ==> launch_spec(
            args,
            default_threads,
        ) == LaunchView::Doctor,
{
    reveal_strlit("-h");
    reveal_strlit("--help");
    reveal_strlit("doctor");
    assert("-h"@ =~= seq!['-', 'h']);
    assert("--help"@ =~= seq!['-', '-', 'h', 'e', 'l', 'p']);
    assert("doctor"@ =~= seq!['d', 'o', 'c', 't', 'o', 'r']);
}

fn string_chars(v: &Vec<String>) -> (r: Vec<Vec<char>>)
    ensures
        views(r@) == string_views(v@),
{
    let mut r: Vec<Vec<char>> = Vec::new();
    let mut i: usize = 0;
    while i < v.len()
        invariant
            i <= v.len(),
            views(r@) =~= string_views(v@).take(i as int),
        decreases v.len() - i,
    {
        let ghost before = r@;
        r.push(chars_of(v[i].as_str()));
        assert(views(r@) =~= views(before).push(v@[i as int]@));
        i += 1;
    }
    r
}

pub fn plan_launch(args: Vec<String>, default_threads: usize) -> (r: Launch)
    ensures
        r@ == launch_spec(string_views(args@), default_threads as nat),
{
    let ghost av = string_views(args@);
    if args.len() == 0 {
        return Launch::Help;
    }
    let first = chars_of(args[0].as_str());
    assert(first@ == av[0]);
    if is_lit(first.as_slice(), "-h") || is_lit(first.as_slice(), "--help") {
        return Launch::Help;
    }
    if is_lit(first.as_slice(), "doctor") {
        return Launch::Doctor;
    }
    match parse_args(args, default_threads) {
        Err(e) => Launch::Usage(e),
        Ok(o) => {
            if o.words.len() == 0 {
                Launch::Usage(string_of(chars_of("give me a request in plain English").as_slice()))
            } else {
                let words = string_chars(&o.words);
                let space = chars_of(" ");
                let prompt = join_chars(words.as_slice(), space.as_slice());
                Launch::Request(o, string_of(prompt.as_slice()))
            }
        },
    }
}

pub open spec fn unusable_message() -> Seq<char> {
    "the model returned no usable command; try rephrasing"@
}

pub open spec fn repetitive_message() -> Seq<char> {
    "the model produced a repetitive, incomplete command; try rephrasing"@
}

/// The command in llama-cli's standard output, or why there is none.
pub open spec fn interpreted(stdout: Seq<char>) -> Result<Seq<char>, Seq<char>> {
    let command = extracted(cli_answer(stdout));
    if command.len() == 0 {
        Err(unusable_message())
    } else if degenerate(command) {
        Err(repetitive_message())
    } else {
        Ok(command)
    }
}

pub fn interpret_output(stdout: &str) -> (r: Result<String, String>)
    ensures
        match r {
            Ok(c) => interpreted(stdout@) == Ok::<Seq<char>, Seq<char>>(c@),
            Err(e) => interpreted(stdout@) == Err::<Seq<char>, Seq<char>>(e@),
        },
{
    let answer = strip_cli_chrome(stdout);
    let command = extract_command(answer.as_str());
    if command.as_str().is_empty() {
        Err("the model returned no usable command; try rephrasing".to_owned())
    } else if looks_degenerate(command.as_str()) {
        Err("the model produced a repetitive, incomplete command; try rephrasing".to_owned())
    } else {
        Ok(command)
    }
}

/// The last eight lines (or all, when there are fewer) of a process's error
/// output, joined by newlines.
pub open spec fn tail_spec(stderr: Seq<char>) -> Seq<char> {
    let ls = lines(stderr);
    let from = if ls.len() > 8 {
        ls.len() - 8
    } else {
        0
    };
    join(ls.skip(from), "\n"@)
}

pub fn stderr_tail(stderr: &str) -> (r: String)
    ensures
        r@ == tail_spec(stderr@),
{
    let s = chars_of(stderr);
    let ls = split_lines(s.as_slice());
    let from = if ls.len() > 8 {
        ls.len() - 8
    } else {
        0
    };
    let nl = chars_of("\n");
    let joined = join_range(ls.as_slice(), from, ls.len(), nl.as_slice());
    assert(views(ls@.subrange(from as int, ls.len() as int)) =~= views(ls@).skip(from as int));
    string_of(joined.as_slice())
}

/// The arguments llama-cli is started with: CPU only, greedy for the first
/// candidate and sampled at temperature 0.6 for the others, at most 64 tokens.
pub open spec fn llama_args_spec(model: Seq<char>, prompt: Seq<char>, threads: nat, sample: bool) -> Seq<
    Seq<char>,
> {
    seq![
        "-m"@,
        model,
        "-sys"@,
        SYSTEM_PROMPT@,
        "-p"@,
        prompt,
        "-st"@,
        "--no-display-prompt"@,
        "--no-warmup"@,
        "--device"@,
        "none"@,
        "--temp"@,
        if sample {
            "0.6"@
        } else {
            "0"@
        },
        "--repeat-penalty"@,
        "1.08"@,
        "-n"@,
        "64"@,
        "-t"@,
        decimal(threads),
    ]
}

fn push_str(v: &mut Vec<String>, s: &str)
    ensures
        string_views(final(v)@) == string_views(old(v)@).push(s@),
{
    v.push(s.to_owned());
    assert(string_views(v@) =~= string_views(old(v)@).push(s@));
}

pub fn llama_args(model: &str, prompt: &str, threads: usize, sample: bool) -> (r: Vec<String>)
    ensures
        string_views(r@) == llama_args_spec(model@, prompt@, threads as nat, sample),
{
    let mut v: Vec<String> = Vec::new();
    push_str(&mut v, "-m");
    push_str(&mut v, model);
    push_str(&mut v, "-sys");
    push_str(&mut v, SYSTEM_PROMPT);
    push_str(&mut v, "-p");
    push_str(&mut v, prompt);
    push_str(&mut v, "-st");
    push_str(&mut v, "--no-display-prompt");
    push_str(&mut v, "--no-warmup");
    push_str(&mut v, "--device");
    push_str(&mut v, "none");
    push_str(&mut v, "--temp");
    push_str(&mut v, if sample { "0.6" } else { "0" });
    push_str(&mut v, "--repeat-penalty");
    push_str(&mut v, "1.08");
    push_str(&mut v, "-n");
    push_str(&mut v, "64");
    push_str(&mut v, "-t");
    let t = decimal_chars(threads);
    let ts = string_of(t.as_slice());
    push_str(&mut v, ts.as_str());
    assert(string_views(v@) =~= llama_args_spec(model@, prompt@, threads as nat, sample));
    v
}


/// What to do after one generation attempt.
pub enum Collect {
    /// Generate the next candidate.
    Continue,
    /// Stop generating and go on with the candidates already kept.
    Stop,
    /// No candidate at all: report the error; the exit status is 4.
    Fail(String),
}

pub open spec fn distinct(s: Seq<Seq<char>>) -> bool {
    forall|i: int, j: int| 0 <= i < j < s.len() ==> s[i] != s[j]
}

fn holds(commands: &Vec<String>, c: &String) -> (b: bool)
    ensures
        b == string_views(commands@).contains(c@),
{
    let ghost v = string_views(commands@);
    let mut i: usize = 0;
    while i < commands.len()
        invariant
            i <= commands.len(),
            v == string_views(commands@),
            forall|j: int| 0 <= j < i ==> v[j] != c@,
        decreases commands.len() - i,
    {
        if commands[i] == *c {
            assert(v[i as int] == c@);
            return true;
        }
        i += 1;
    }
    false
}

/// Keep a new command unless it repeats one already kept; an error ends the
/// generation, and fails the whole request when nothing was kept before it.
pub fn collect_candidate(commands: &mut Vec<String>, outcome: Result<String, String>) -> (r: Collect)
    ensures
        match outcome {
            Ok(c) => {
                &&& r is Continue
                &&& string_views(final(commands)@) == if string_views(old(commands)@).contains(c@) {
                    string_views(old(commands)@)
                } else {
                    string_views(old(commands)@).push(c@)
                }
            },
            Err(e) => {
                &&& final(commands)@ == old(commands)@
                &&& if old(commands)@.len() == 0 {
                    r matches Collect::Fail(m) && m@ == e@
                } else {
                    r is Stop
                }
            },
        },
        distinct(string_views(old(commands)@)) ==> distinct(string_views(final(commands)@)),
{
    match outcome {
        Ok(c) => {
            if !holds(commands, &c) {
                let ghost before = string_views(commands@);
                let ghost cv = c@;
                commands.push(c);
                assert(string_views(commands@) =~= before.push(cv));
                proof {
                    let after = string_views(commands@);
                    if distinct(before) {
                        assert forall|i: int, j: int| 0 <= i < j < after.len() implies after[i]
                            != after[j] by {
                            if j == before.len() {
                                assert(before.contains(before[i]));
                            }
                        }
                    }
                }
            }
            Collect::Continue
        },
        Err(e) => {
            if commands.len() == 0 {
                Collect::Fail(e)
            } else {
                Collect::Stop
            }
        },
    }
}

/// Whether the command may run, once the candidates are shown.
pub enum Verdict {
    /// Nothing to run: `--execute` was not given. The exit status is 0.
    Finish,
    /// Refuse to run, with the reason; the exit status is 6.
    Refuse(String),
    /// Ask the user to confirm before running.
    Confirm,
}

pub open spec fn several_message() -> Seq<char> {
    "refusing to guess which candidate to execute; rerun without -n"@
}

pub open spec fn danger_message() -> Seq<char> {
    "refusing to auto-run a command flagged DANGER"@
}

pub open spec fn no_terminal_message() -> Seq<char> {
    "refusing to execute without an interactive confirmation"@
}

pub enum VerdictView {
    Finish,
    Refuse(Seq<char>),
    Confirm,
}

impl View for Verdict {
    type V = VerdictView;

    open spec fn view(&self) -> VerdictView {
        match self {
            Verdict::Finish => VerdictView::Finish,
            Verdict::Refuse(m) => VerdictView::Refuse(m@),
            Verdict::Confirm => VerdictView::Confirm,
        }
    }
}

/// Without `--execute` there is nothing to run; with it, several candidates,
/// a danger finding, or a missing terminal each refuse, in that order;
/// otherwise the user is asked.
pub open spec fn verdict_spec(execute: bool, candidates: nat, any_danger: bool, interactive: bool) -> VerdictView {
    if !execute {
        VerdictView::Finish
    } else if candidates > 1 {
        VerdictView::Refuse(several_message())
    } else if any_danger {
        VerdictView::Refuse(danger_message())
    } else if !interactive {
        VerdictView::Refuse(no_terminal_message())
    } else {
        VerdictView::Confirm
    }
}

pub fn execution_verdict(execute: bool, candidates: usize, any_danger: bool, interactive: bool) -> (r:
    Verdict)
    ensures
        r@ == verdict_spec(execute, candidates as nat, any_danger, interactive),
{
    if !execute {
        Verdict::Finish
    } else if candidates > 1 {
        Verdict::Refuse("refusing to guess which candidate to execute; rerun without -n".to_owned())
    } else if any_danger {
        Verdict::Refuse("refusing to auto-run a command flagged DANGER".to_owned())
    } else if !interactive {
        Verdict::Refuse("refusing to execute without an interactive confirmation".to_owned())
    } else {
        Verdict::Confirm
    }
}

/// Nothing is offered for running without `--execute` and a terminal to confirm
/// on, and a command flagged as a danger, or one of several candidates, never is.
pub proof fn only_single_safe_commands_are_offered(
    execute: bool,
    candidates: nat,
    any_danger: bool,
    interactive: bool,
)
    ensures
        verdict_spec(execute, candidates, any_danger, interactive) is Confirm ==> execute
            && candidates <= 1 && !any_danger && interactive,
{
}

pub open spec fn quiet_refusal_message() -> Seq<char> {
    "refusing to emit a command flagged DANGER"@
}

pub open spec fn no_candidate_message() -> Seq<char> {
    "the model returned no distinct command"@
}

/// The reason to stop, with exit status 5, when generation kept no candidate.
pub fn missing_candidates(commands: &Vec<String>) -> (r: Option<String>)
    ensures
        r is Some <==> commands@.len() == 0,
        r matches Some(m) ==> m@ == no_candidate_message(),
{
    if commands.len() == 0 {
        Some("the model returned no distinct command".to_owned())
    } else {
        None
    }
}

/// Quiet mode prints the first candidate alone, and withholds it, giving the
/// reason (exit status 6), when the safety rules flag it as a danger.
pub open spec fn quiet_spec(first: Seq<char>) -> Result<Seq<char>, Seq<char>> {
    if has_danger_spec(safety_findings(first)) {
        Err(quiet_refusal_message())
    } else {
        Ok(first)
    }
}

pub fn quiet_output(commands: &Vec<String>) -> (r: Result<String, String>)
    requires
        commands@.len() > 0,
    ensures
        match r {
            Ok(c) => quiet_spec(commands@[0]@) == Ok::<Seq<char>, Seq<char>>(c@),
            Err(m) => quiet_spec(commands@[0]@) == Err::<Seq<char>, Seq<char>>(m@),
        },
{
    let first = &commands[0];
    let findings = check_safety(first.as_str());
    if has_danger(&findings) {
        Err("refusing to emit a command flagged DANGER".to_owned())
    } else {
        Ok(first.clone())
    }
}

/// Quiet mode never prints a command that the safety rules flag as a danger.
pub proof fn quiet_mode_never_prints_a_danger(first: Seq<char>)
    ensures
        quiet_spec(first) is Ok ==> !has_danger_spec(safety_findings(first)),
{
}

pub open spec fn severity_label(s: Severity) -> Seq<char> {
    match s {
        Severity::Danger => "!! DANGER"@,
        Severity::Caution => "!  caution"@,
    }
}

/// The report line for a finding: its label and its reason, indented.
pub open spec fn finding_line_spec(f: (Severity, Seq<char>)) -> Seq<char> {
    "  "@ + severity_label(f.0) + "  "@ + f.1
}

pub fn finding_line(f: &Finding) -> (r: String)
    ensures
        r@ == finding_line_spec(f@),
{
    let label = match f.severity {
        Severity::Danger => "!! DANGER",
        Severity::Caution => "!  caution",
    };
    let mut out = chars_of("  ");
    append_chars(&mut out, chars_of(label).as_slice());
    append_chars(&mut out, chars_of("  ").as_slice());
    append_chars(&mut out, chars_of(f.reason).as_slice());
    string_of(out.as_slice())
}

/// How a candidate is listed: numbered from 1 when there are several.
pub open spec fn candidate_line_spec(index: nat, command: Seq<char>, total: nat) -> Seq<char> {
    if total > 1 {
        decimal(index + 1) + ". "@ + command
    } else {
        command
    }
}

pub fn candidate_line(index: usize, command: &str, total: usize) -> (r: String)
    requires
        index < total,
    ensures
        r@ == candidate_line_spec(index as nat, command@, total as nat),
{
    if total > 1 {
        let mut out = decimal_chars(index + 1);
        append_chars(&mut out, chars_of(". ").as_slice());
        append_chars(&mut out, chars_of(command).as_slice());
        string_of(out.as_slice())
    } else {
        command.to_owned()
    }
}

/// An answer of `y` or `yes`, in any ASCII case, around white space.
pub open spec fn affirmative(answer: Seq<char>) -> bool {
    let a = lower_seq(trim(answer));
    a == "y"@ || a == "yes"@
}

pub fn is_affirmative(answer: &str) -> (b: bool)
    ensures
        b == affirmative(answer@),
{
    let s = chars_of(answer);
    let t = trim_chars(s.as_slice());
    let l = lowercase(t.as_slice());
    is_lit(l.as_slice(), "y") || is_lit(l.as_slice(), "yes")
}

pub open spec fn doctor_line_spec(found: Option<Seq<char>>, label: Seq<char>) -> Seq<char> {
    match found {
        Some(p) => "  "@ + "ok  "@ + label + p,
        None => "  "@ + "FAIL"@ + label + "not found"@,
    }
}

/// The doctor report: a heading, a line for the model and one for llama-cli,
/// and the exit status, 0 when both were found and 1 otherwise.
pub open spec fn doctor_spec(model: Option<Seq<char>>, llama: Option<Seq<char>>) -> (Seq<Seq<char>>, int) {
    (
        seq![
            "whatisit doctor"@,
            doctor_line_spec(model, " model      "@),
            doctor_line_spec(llama, " llama-cli  "@),
        ],
        if model is Some && llama is Some {
            0
        } else {
            1
        },
    )
}

pub open spec fn option_view(o: Option<String>) -> Option<Seq<char>> {
    match o {
        Some(s) => Some(s@),
        None => None,
    }
}

fn doctor_line(found: &Option<String>, label: &str) -> (r: String)
    ensures
        r@ == doctor_line_spec(option_view(*found), label@),
{
    let mut out = chars_of("  ");
    match found {
        Some(p) => {
            append_chars(&mut out, chars_of("ok  ").as_slice());
            append_chars(&mut out, chars_of(label).as_slice());
            append_chars(&mut out, chars_of(p.as_str()).as_slice());
        },
        None => {
            append_chars(&mut out, chars_of("FAIL").as_slice());
            append_chars(&mut out, chars_of(label).as_slice());
            append_chars(&mut out, chars_of("not found").as_slice());
        },
    }
    string_of(out.as_slice())
}

pub fn doctor_report(model: Option<String>, llama: Option<String>) -> (r: (Vec<String>, i32))
    ensures
        string_views(r.0@) == doctor_spec(option_view(model), option_view(llama)).0,
        r.1 as int == doctor_spec(option_view(model), option_view(llama)).1,
{
    let mut lines: Vec<String> = Vec::new();
    push_str(&mut lines, "whatisit doctor");
    let m = doctor_line(&model, " model      ");
    push_str(&mut lines, m.as_str());
    let l = doctor_line(&llama, " llama-cli  ");
    push_str(&mut lines, l.as_str());
    assert(string_views(lines@) =~= doctor_spec(option_view(model), option_view(llama)).0);
    let code = if model.is_some() && llama.is_some() {
        0
    } else {
        1
    };
    (lines, code)
}

/// Where a file is found: the path named by the environment when it is a
/// file, else the one beside the executable when that is a file.
pub open spec fn location_spec<P>(from_env: Option<(P, bool)>, beside_exe: Option<(P, bool)>) -> Option<P> {
    match from_env {
        Some((p, true)) => Some(p),
        _ => match beside_exe {
            Some((p, true)) => Some(p),
            _ => None,
        },
    }
}

pub fn pick_location<P>(from_env: Option<(P, bool)>, beside_exe: Option<(P, bool)>) -> (r: Option<P>)
    ensures
        r == location_spec(from_env, beside_exe),
{
    match from_env {
        Some((p, true)) => Some(p),
        _ => match beside_exe {
            Some((p, true)) => Some(p),
            _ => None,
        },
    }
}

} // verus!
