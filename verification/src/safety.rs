//! Conservative static checks on a shell command. This is a seatbelt, not a
//! shell sandbox.

use vstd::prelude::*;
use crate::controls::{keeps, lemma_plain_concat, plain, strip_chars, stripped, stripped_plain};
use crate::text::{
    chars_of, contains_lit, contains_seq, copy_range, ends_lit, ends_with, has_char, is_lit,
    is_white, is_white_char, join, join_chars, lower_seq, lowercase, same, split_white,
    starts_lit, starts_with, views, white_words, finish_lines, is_prefix, lemma_compact_prefix,
    lemma_contains_prefix, occurs_at,
};

verus! {

#[derive(Debug, Clone, Copy, PartialEq, Eq, Structural)]
pub enum Severity {
    Caution,
    Danger,
}

#[derive(Debug, Clone, PartialEq, Eq)]
pub struct Finding {
    pub severity: Severity,
    pub reason: &'static str,
}

impl View for Finding {
    type V = (Severity, Seq<char>);

    open spec fn view(&self) -> (Severity, Seq<char>) {
        (self.severity, self.reason@)
    }
}

pub open spec fn findings_view(v: Seq<Finding>) -> Seq<(Severity, Seq<char>)> {
    v.map_values(|f: Finding| f@)
}

/// `acc` with `f` appended unless it is already there.
pub open spec fn add_unique(acc: Seq<(Severity, Seq<char>)>, f: (Severity, Seq<char>)) -> Seq<
    (Severity, Seq<char>),
> {
    if acc.contains(f) {
        acc
    } else {
        acc.push(f)
    }
}

/// `acc` with the finding added when `cond` holds.
pub open spec fn add_if(
    acc: Seq<(Severity, Seq<char>)>,
    cond: bool,
    severity: Severity,
    reason: Seq<char>,
) -> Seq<(Severity, Seq<char>)> {
    if cond {
        add_unique(acc, (severity, reason))
    } else {
        acc
    }
}

pub open spec fn no_duplicates(s: Seq<(Severity, Seq<char>)>) -> bool {
    forall|i: int, j: int| 0 <= i < j < s.len() ==> s[i] != s[j]
}

pub proof fn lemma_add_unique_no_duplicates(
    acc: Seq<(Severity, Seq<char>)>,
    f: (Severity, Seq<char>),
)
    requires
        no_duplicates(acc),
    ensures
        no_duplicates(add_unique(acc, f)),
{
    if !acc.contains(f) {
        let r = acc.push(f);
        assert forall|i: int, j: int| 0 <= i < j < r.len() implies r[i] != r[j] by {
            if j == acc.len() {
                assert(r[i] == acc[i]);
            }
        }
    }
}

fn push_unique(out: &mut Vec<Finding>, severity: Severity, reason: &'static str)
    ensures
        findings_view(final(out)@) == add_unique(findings_view(old(out)@), (severity, reason@)),
        no_duplicates(findings_view(old(out)@)) ==> no_duplicates(findings_view(final(out)@)),
{
    proof {
        if no_duplicates(findings_view(out@)) {
            lemma_add_unique_no_duplicates(findings_view(out@), (severity, reason@));
        }
    }
    let ghost acc = findings_view(out@);
    let r = chars_of(reason);
    let mut i: usize = 0;
    while i < out.len()
        invariant
            i <= out.len(),
            r@ == reason@,
            acc == findings_view(out@),
            forall|j: int| 0 <= j < i ==> acc[j] != (severity, reason@),
        decreases out.len() - i,
    {
        let fr = chars_of(out[i].reason);
        if out[i].severity == severity && same(fr.as_slice(), r.as_slice()) {
            assert(acc[i as int] == (severity, reason@));
            return;
        }
        i += 1;
    }
    out.push(Finding { severity, reason });
    assert(findings_view(out@) =~= acc.push((severity, reason@)));
}

pub open spec fn is_shell_sep(c: char) -> bool {
    c == '|' || c == ';' || c == '&'
}

/// The shell words of `s[i..]`: `words` already ended, `word` under way, `quote`
/// the open quote character, `escaped` after an unquoted-or-double-quoted
/// backslash. White space and `| ; &` end a word; each of `| ; &` is a word of
/// its own.
pub open spec fn shell_from(
    s: Seq<char>,
    i: int,
    words: Seq<Seq<char>>,
    word: Seq<char>,
    quote: Option<char>,
    escaped: bool,
) -> Seq<Seq<char>>
    decreases s.len() - i,
{
    if i < 0 || i >= s.len() {
        if word.len() > 0 {
            words.push(word)
        } else {
            words
        }
    } else {
        let c = s[i];
        if escaped {
            shell_from(s, i + 1, words, word.push(c), quote, false)
        } else if c == '\\' && quote != Some('\'') {
            shell_from(s, i + 1, words, word, quote, true)
        } else if quote is Some {
            if c == quote->0 {
                shell_from(s, i + 1, words, word, None, false)
            } else {
                shell_from(s, i + 1, words, word.push(c), quote, false)
            }
        } else if c == '\'' || c == '"' {
            shell_from(s, i + 1, words, word, Some(c), false)
        } else if is_white_char(c) || is_shell_sep(c) {
            let ended = if word.len() > 0 {
                words.push(word)
            } else {
                words
            };
            let with_sep = if is_shell_sep(c) {
                ended.push(seq![c])
            } else {
                ended
            };
            shell_from(s, i + 1, with_sep, seq![], quote, false)
        } else {
            shell_from(s, i + 1, words, word.push(c), quote, false)
        }
    }
}

pub open spec fn shell_words_of(s: Seq<char>) -> Seq<Seq<char>> {
    shell_from(s, 0, seq![], seq![], None, false)
}

fn push_word(words: &mut Vec<Vec<char>>, word: Vec<char>)
    ensures
        views(final(words)@) == views(old(words)@).push(word@),
{
    words.push(word);
    assert(views(words@) =~= views(old(words)@).push(word@));
}

pub fn shell_words(s: &[char]) -> (r: Vec<Vec<char>>)
    ensures
        views(r@) == shell_words_of(s@),
{
    let mut words: Vec<Vec<char>> = Vec::new();
    let mut word: Vec<char> = Vec::new();
    let mut quote: Option<char> = None;
    let mut escaped = false;
    let mut i: usize = 0;
    assert(views(words@) =~= seq![]);
    assert(word@ =~= seq![]);
    while i < s.len()
        invariant
            i <= s.len(),
            shell_words_of(s@) == shell_from(s@, i as int, views(words@), word@, quote, escaped),
        decreases s.len() - i,
    {
        let c = s[i];
        if escaped {
            word.push(c);
            escaped = false;
        } else if c == '\\' && quote != Some('\'') {
            escaped = true;
        } else if quote.is_some() {
            if Some(c) == quote {
                quote = None;
            } else {
                word.push(c);
            }
        } else if c == '\'' || c == '"' {
            quote = Some(c);
        } else if is_white(c) || c == '|' || c == ';' || c == '&' {
            if word.len() > 0 {
                push_word(&mut words, word);
                word = Vec::new();
            }
            if c == '|' || c == ';' || c == '&' {
                let mut sep: Vec<char> = Vec::new();
                sep.push(c);
                assert(sep@ =~= seq![c]);
                push_word(&mut words, sep);
            }
            assert(word@ =~= seq![]);
        } else {
            word.push(c);
        }
        i += 1;
    }
    if word.len() > 0 {
        push_word(&mut words, word);
    }
    words
}

/// The pieces of `s[i..]` between `'/'` characters, `cur` the piece under way.
pub open spec fn segments_from(s: Seq<char>, i: int, done: Seq<Seq<char>>, cur: Seq<char>) -> Seq<
    Seq<char>,
>
    decreases s.len() - i,
{
    if i < 0 || i >= s.len() {
        done.push(cur)
    } else if s[i] == '/' {
        segments_from(s, i + 1, done.push(cur), seq![])
    } else {
        segments_from(s, i + 1, done, cur.push(s[i]))
    }
}

pub open spec fn segments(s: Seq<char>) -> Seq<Seq<char>> {
    segments_from(s, 0, seq![], seq![])
}

/// The last segment that is neither empty nor `.`.
pub open spec fn last_named(segs: Seq<Seq<char>>) -> Option<Seq<char>>
    decreases segs.len(),
{
    if segs.len() == 0 {
        None
    } else if segs.last().len() == 0 || segs.last() == seq!['.'] {
        last_named(segs.drop_last())
    } else {
        Some(segs.last())
    }
}

/// The final component of the path `p`, if it is a name (not `..`).
pub open spec fn file_name(p: Seq<char>) -> Option<Seq<char>> {
    match last_named(segments(p)) {
        Some(n) => if n == seq!['.', '.'] {
            None
        } else {
            Some(n)
        },
        None => None,
    }
}

/// The command a word names: its file name, or the word itself when it has none.
pub open spec fn verb_of(word: Seq<char>) -> Seq<char> {
    match file_name(word) {
        Some(n) => n,
        None => word,
    }
}

pub open spec fn is_delete_verb(v: Seq<char>) -> bool {
    v == "rm"@ || v == "rmdir"@ || v == "shred"@ || v == "unlink"@
}

fn path_segments(s: &[char]) -> (r: Vec<Vec<char>>)
    ensures
        views(r@) == segments(s@),
{
    let mut done: Vec<Vec<char>> = Vec::new();
    let mut cur: Vec<char> = Vec::new();
    let mut i: usize = 0;
    assert(views(done@) =~= seq![]);
    assert(cur@ =~= seq![]);
    while i < s.len()
        invariant
            i <= s.len(),
            segments(s@) == segments_from(s@, i as int, views(done@), cur@),
        decreases s.len() - i,
    {
        if s[i] == '/' {
            push_word(&mut done, cur);
            cur = Vec::new();
            assert(cur@ =~= seq![]);
        } else {
            cur.push(s[i]);
        }
        i += 1;
    }
    push_word(&mut done, cur);
    done
}

fn verb(word: &[char]) -> (r: Vec<char>)
    ensures
        r@ == verb_of(word@),
{
    let segs = path_segments(word);
    let ghost sv = views(segs@);
    let mut k: usize = segs.len();
    assert(sv.take(k as int) =~= sv);
    while k > 0 && (segs[k - 1].len() == 0 || is_lit(segs[k - 1].as_slice(), "."))
        invariant
            k <= segs.len(),
            sv == views(segs@),
            last_named(sv) == last_named(sv.take(k as int)),
        decreases k,
    {
        proof {
            reveal_strlit(".");
            assert("."@ =~= seq!['.']);
            assert(sv.take(k as int).last() == segs@[k - 1]@);
            assert(sv.take(k as int).drop_last() =~= sv.take(k - 1));
        }
        k -= 1;
    }
    if k == 0 {
        assert(sv.take(0) =~= Seq::<Seq<char>>::empty());
        assert(word@.subrange(0, word@.len() as int) =~= word@);
        copy_range(word, 0, word.len())
    } else {
        proof {
            reveal_strlit(".");
            reveal_strlit("..");
            assert("."@ =~= seq!['.']);
            assert(".."@ =~= seq!['.', '.']);
            assert(sv.take(k as int).last() == segs@[k - 1]@);
            assert(word@.subrange(0, word@.len() as int) =~= word@);
            assert(segs@[k - 1]@.subrange(0, segs@[k - 1]@.len() as int) =~= segs@[k - 1]@);
        }
        let last = &segs[k - 1];
        if is_lit(last.as_slice(), "..") {
            copy_range(word, 0, word.len())
        } else {
            copy_range(last.as_slice(), 0, last.len())
        }
    }
}

pub fn names_delete_verb(word: &[char]) -> (b: bool)
    ensures
        b == is_delete_verb(verb_of(word@)),
{
    let v = verb(word);
    is_lit(v.as_slice(), "rm") || is_lit(v.as_slice(), "rmdir") || is_lit(v.as_slice(), "shred")
        || is_lit(v.as_slice(), "unlink")
}


pub open spec fn trim_end_slash(s: Seq<char>) -> Seq<char>
    decreases s.len(),
{
    if s.len() > 0 && s.last() == '/' {
        trim_end_slash(s.drop_last())
    } else {
        s
    }
}

/// The system directories, home directories and home references that a
/// deletion must never name.
pub open spec fn is_critical_name(n: Seq<char>) -> bool {
    ||| n == ""@
    ||| n == "/"@
    ||| n == "/bin"@
    ||| n == "/boot"@
    ||| n == "/dev"@
    ||| n == "/etc"@
    ||| n == "/home"@
    ||| n == "/lib"@
    ||| n == "/lib32"@
    ||| n == "/lib64"@
    ||| n == "/opt"@
    ||| n == "/proc"@
    ||| n == "/root"@
    ||| n == "/run"@
    ||| n == "/sbin"@
    ||| n == "/srv"@
    ||| n == "/sys"@
    ||| n == "/usr"@
    ||| n == "/var"@
    ||| n == "/var/log"@
    ||| n == "/var/lib"@
    ||| n == "/usr/local"@
    ||| n == "$HOME"@
    ||| n == "${HOME}"@
    ||| n == "~"@
}

pub open spec fn is_account_file(n: Seq<char>) -> bool {
    ||| n == "/etc/passwd"@
    ||| n == "/etc/shadow"@
    ||| n == "/etc/group"@
    ||| n == "/etc/sudoers"@
    ||| n == "/etc/fstab"@
}

/// A deletion target that is critical, or whose meaning the shell decides
/// (a variable, a glob under the root, a climb out of the home directory).
pub open spec fn is_critical_target_spec(t: Seq<char>) -> bool {
    let n = trim_end_slash(t);
    ||| is_critical_name(n)
    ||| (starts_with(n, "/home/"@) && !n.skip(6).contains('/'))
    ||| is_account_file(n)
    ||| contains_seq(t, "$HOME/.."@)
    ||| contains_seq(t, "~/.."@)
    ||| (starts_with(t, "/"@) && (t.contains('*') || ends_with(t, "/."@)))
    ||| starts_with(t, "$"@)
}

fn critical_name(n: &[char]) -> (b: bool)
    ensures
        b == is_critical_name(n@),
{
    is_lit(n, "") || is_lit(n, "/") || is_lit(n, "/bin") || is_lit(n, "/boot") || is_lit(n, "/dev")
        || is_lit(n, "/etc") || is_lit(n, "/home") || is_lit(n, "/lib") || is_lit(n, "/lib32")
        || is_lit(n, "/lib64") || is_lit(n, "/opt") || is_lit(n, "/proc") || is_lit(n, "/root")
        || is_lit(n, "/run") || is_lit(n, "/sbin") || is_lit(n, "/srv") || is_lit(n, "/sys")
        || is_lit(n, "/usr") || is_lit(n, "/var") || is_lit(n, "/var/log") || is_lit(
        n,
        "/var/lib",
    ) || is_lit(n, "/usr/local") || is_lit(n, "$HOME") || is_lit(n, "${HOME}") || is_lit(n, "~")
}

fn account_file(n: &[char]) -> (b: bool)
    ensures
        b == is_account_file(n@),
{
    is_lit(n, "/etc/passwd") || is_lit(n, "/etc/shadow") || is_lit(n, "/etc/group") || is_lit(
        n,
        "/etc/sudoers",
    ) || is_lit(n, "/etc/fstab")
}

fn without_trailing_slashes(t: &[char]) -> (r: Vec<char>)
    ensures
        r@ == trim_end_slash(t@),
{
    let mut hi: usize = t.len();
    assert(t@.subrange(0, hi as int) =~= t@);
    while hi > 0 && t[hi - 1] == '/'
        invariant
            hi <= t.len(),
            trim_end_slash(t@) == trim_end_slash(t@.subrange(0, hi as int)),
        decreases hi,
    {
        assert(t@.subrange(0, hi as int).drop_last() =~= t@.subrange(0, hi - 1));
        hi -= 1;
    }
    copy_range(t, 0, hi)
}

pub fn is_critical_target(target: &[char]) -> (b: bool)
    ensures
        b == is_critical_target_spec(target@),
{
    let n = without_trailing_slashes(target);
    let home_entry = if starts_lit(n.as_slice(), "/home/") {
        proof {
            reveal_strlit("/home/");
        }
        let rest = copy_range(n.as_slice(), 6, n.len());
        assert(rest@ =~= n@.skip(6));
        !has_char(rest.as_slice(), '/')
    } else {
        false
    };
    critical_name(n.as_slice()) || home_entry || account_file(n.as_slice()) || contains_lit(
        target,
        "$HOME/..",
    ) || contains_lit(target, "~/..") || (starts_lit(target, "/") && (has_char(target, '*')
        || ends_lit(target, "/."))) || starts_lit(target, "$")
}

/// The findings for literal patterns in the whitespace-normalised lowercase command.
pub open spec fn literal_findings(acc: Seq<(Severity, Seq<char>)>, compact: Seq<char>) -> Seq<
    (Severity, Seq<char>),
> {
    let a1 = add_if(
        acc,
        contains_seq(compact, "git reset --hard"@),
        Severity::Danger,
        "git reset --hard discards uncommitted work"@,
    );
    let a2 = add_if(
        a1,
        contains_seq(compact, "git clean -xdf"@),
        Severity::Danger,
        "git clean deletes untracked files irrecoverably"@,
    );
    let a3 = add_if(
        a2,
        contains_seq(compact, "git clean -fdx"@),
        Severity::Danger,
        "git clean deletes untracked files irrecoverably"@,
    );
    let a4 = add_if(
        a3,
        contains_seq(compact, "--no-preserve-root"@),
        Severity::Danger,
        "explicitly overrides rm's root guard"@,
    );
    let a5 = add_if(
        a4,
        contains_seq(compact, "crontab -r"@),
        Severity::Danger,
        "deletes the entire user crontab"@,
    );
    let a6 = add_if(
        a5,
        contains_seq(compact, "nft flush ruleset"@),
        Severity::Danger,
        "flushes firewall rules and can lock you out"@,
    );
    let a7 = add_if(
        a6,
        contains_seq(compact, "history -c"@),
        Severity::Danger,
        "erases shell history"@,
    );
    let a8 = add_if(
        a7,
        contains_seq(compact, "nopasswd"@),
        Severity::Danger,
        "grants passwordless sudo"@,
    );
    let a9 = add_if(a8, contains_seq(compact, ":(){ :|:& };:"@), Severity::Danger, "fork bomb"@);
    add_if(a9, contains_seq(compact, ":() { :|: & }; :"@), Severity::Danger, "fork bomb"@)
}

fn add_literal_findings(out: &mut Vec<Finding>, compact: &[char])
    ensures
        findings_view(final(out)@) == literal_findings(findings_view(old(out)@), compact@),
        no_duplicates(findings_view(old(out)@)) ==> no_duplicates(findings_view(final(out)@)),
{
    if contains_lit(compact, "git reset --hard") {
        push_unique(out, Severity::Danger, "git reset --hard discards uncommitted work");
    }
    if contains_lit(compact, "git clean -xdf") {
        push_unique(out, Severity::Danger, "git clean deletes untracked files irrecoverably");
    }
    if contains_lit(compact, "git clean -fdx") {
        push_unique(out, Severity::Danger, "git clean deletes untracked files irrecoverably");
    }
    if contains_lit(compact, "--no-preserve-root") {
        push_unique(out, Severity::Danger, "explicitly overrides rm's root guard");
    }
    if contains_lit(compact, "crontab -r") {
        push_unique(out, Severity::Danger, "deletes the entire user crontab");
    }
    if contains_lit(compact, "nft flush ruleset") {
        push_unique(out, Severity::Danger, "flushes firewall rules and can lock you out");
    }
    if contains_lit(compact, "history -c") {
        push_unique(out, Severity::Danger, "erases shell history");
    }
    if contains_lit(compact, "nopasswd") {
        push_unique(out, Severity::Danger, "grants passwordless sudo");
    }
    if contains_lit(compact, ":(){ :|:& };:") {
        push_unique(out, Severity::Danger, "fork bomb");
    }
    if contains_lit(compact, ":() { :|: & }; :") {
        push_unique(out, Severity::Danger, "fork bomb");
    }
}

pub open spec fn is_power_word(w: Seq<char>) -> bool {
    w == "shutdown"@ || w == "reboot"@ || w == "poweroff"@ || w == "halt"@
}

pub open spec fn fetches(lower: Seq<char>) -> bool {
    contains_seq(lower, "curl "@) || contains_seq(lower, "wget "@)
}

pub open spec fn names_interpreter(lower: Seq<char>) -> bool {
    ||| contains_seq(lower, " sh"@)
    ||| contains_seq(lower, " bash"@)
    ||| contains_seq(lower, " zsh"@)
    ||| contains_seq(lower, " python"@)
    ||| contains_seq(lower, " perl"@)
    ||| contains_seq(lower, " ruby"@)
    ||| contains_seq(lower, " node"@)
}

pub open spec fn names_shell(lower: Seq<char>) -> bool {
    contains_seq(lower, "bash"@) || contains_seq(lower, "sh "@) || contains_seq(lower, "zsh"@)
}

pub open spec fn names_disk_wiper(lower: Seq<char>) -> bool {
    ||| contains_seq(lower, "mkfs"@)
    ||| contains_seq(lower, "wipefs"@)
    ||| contains_seq(lower, "blkdiscard"@)
    ||| contains_seq(lower, "luksformat"@)
    ||| contains_seq(lower, "--zap-all"@)
}

/// The findings for keywords of the lowercase command.
pub open spec fn keyword_findings(acc: Seq<(Severity, Seq<char>)>, lower: Seq<char>) -> Seq<
    (Severity, Seq<char>),
> {
    let words = shell_words_of(lower);
    let a1 = add_if(
        acc,
        exists|k: int| 0 <= k < words.len() && is_power_word(#[trigger] words[k]),
        Severity::Danger,
        "shuts the machine down"@,
    );
    let a2 = add_if(
        a1,
        fetches(lower) && lower.contains('|') && names_interpreter(lower),
        Severity::Danger,
        "pipes remote content directly into an interpreter"@,
    );
    let a3 = add_if(
        a2,
        contains_seq(lower, "/dev/tcp/"@) && names_shell(lower),
        Severity::Danger,
        "possible reverse shell"@,
    );
    let a4 = add_if(
        a3,
        names_disk_wiper(lower) && contains_seq(lower, "/dev/"@),
        Severity::Danger,
        "wipes or reformats a block device"@,
    );
    let a5 = add_if(
        a4,
        contains_seq(lower, "dd "@) && contains_seq(lower, "of=/dev/"@),
        Severity::Danger,
        "overwrites a block device"@,
    );
    add_if(
        a5,
        contains_seq(lower, "> /etc/"@) || contains_seq(lower, ">|/etc/"@),
        Severity::Danger,
        "overwrites a critical system file"@,
    )
}

fn any_power_word(words: &Vec<Vec<char>>) -> (b: bool)
    ensures
        b == exists|k: int| 0 <= k < words@.len() && is_power_word(#[trigger] views(words@)[k]),
{
    let mut k: usize = 0;
    while k < words.len()
        invariant
            k <= words.len(),
            forall|j: int| 0 <= j < k ==> !is_power_word(#[trigger] views(words@)[j]),
        decreases words.len() - k,
    {
        let w = words[k].as_slice();
        if is_lit(w, "shutdown") || is_lit(w, "reboot") || is_lit(w, "poweroff") || is_lit(w, "halt") {
            assert(is_power_word(views(words@)[k as int]));
            return true;
        }
        k += 1;
    }
    false
}

fn add_keyword_findings(out: &mut Vec<Finding>, lower: &[char])
    ensures
        findings_view(final(out)@) == keyword_findings(findings_view(old(out)@), lower@),
        no_duplicates(findings_view(old(out)@)) ==> no_duplicates(findings_view(final(out)@)),
{
    let words = shell_words(lower);
    if any_power_word(&words) {
        push_unique(out, Severity::Danger, "shuts the machine down");
    }
    let fetch = contains_lit(lower, "curl ") || contains_lit(lower, "wget ");
    let interp = contains_lit(lower, " sh") || contains_lit(lower, " bash") || contains_lit(
        lower,
        " zsh",
    ) || contains_lit(lower, " python") || contains_lit(lower, " perl") || contains_lit(
        lower,
        " ruby",
    ) || contains_lit(lower, " node");
    if fetch && has_char(lower, '|') && interp {
        push_unique(out, Severity::Danger, "pipes remote content directly into an interpreter");
    }
    if contains_lit(lower, "/dev/tcp/") && (contains_lit(lower, "bash") || contains_lit(lower, "sh ")
        || contains_lit(lower, "zsh")) {
        push_unique(out, Severity::Danger, "possible reverse shell");
    }
    if (contains_lit(lower, "mkfs") || contains_lit(lower, "wipefs") || contains_lit(
        lower,
        "blkdiscard",
    ) || contains_lit(lower, "luksformat") || contains_lit(lower, "--zap-all")) && contains_lit(
        lower,
        "/dev/",
    ) {
        push_unique(out, Severity::Danger, "wipes or reformats a block device");
    }
    if contains_lit(lower, "dd ") && contains_lit(lower, "of=/dev/") {
        push_unique(out, Severity::Danger, "overwrites a block device");
    }
    if contains_lit(lower, "> /etc/") || contains_lit(lower, ">|/etc/") {
        push_unique(out, Severity::Danger, "overwrites a critical system file");
    }
}


pub open spec fn is_word_sep(w: Seq<char>) -> bool {
    w == "|"@ || w == ";"@ || w == "&"@
}

pub open spec fn is_unscoped(t: Seq<char>) -> bool {
    t == "*"@ || t == "."@ || t == "./*"@
}

/// The findings for the targets `words[j..]` of a deletion command, up to the
/// first `|`, `;` or `&`; `recursive` and `force` record the flags seen so far.
pub open spec fn target_findings(
    acc: Seq<(Severity, Seq<char>)>,
    words: Seq<Seq<char>>,
    j: int,
    recursive: bool,
    force: bool,
) -> Seq<(Severity, Seq<char>)>
    decreases words.len() - j,
{
    if j < 0 || j >= words.len() || is_word_sep(words[j]) {
        acc
    } else {
        let t = words[j];
        if t.len() > 0 && t[0] == '-' {
            target_findings(
                acc,
                words,
                j + 1,
                recursive || t.contains('r') || contains_seq(t, "recursive"@),
                force || t.contains('f') || contains_seq(t, "force"@),
            )
        } else if is_critical_target_spec(t) {
            target_findings(
                add_unique(acc, (Severity::Danger, "deletes a critical or unresolved path"@)),
                words,
                j + 1,
                recursive,
                force,
            )
        } else if recursive && force && is_unscoped(t) {
            target_findings(
                add_unique(acc, (Severity::Danger, "unscoped recursive deletion"@)),
                words,
                j + 1,
                recursive,
                force,
            )
        } else {
            target_findings(acc, words, j + 1, recursive, force)
        }
    }
}

/// The findings for every deletion command among `words[i..]`.
pub open spec fn deletion_findings(
    acc: Seq<(Severity, Seq<char>)>,
    words: Seq<Seq<char>>,
    i: int,
) -> Seq<(Severity, Seq<char>)>
    decreases words.len() - i,
{
    if i < 0 || i >= words.len() {
        acc
    } else {
        let next = if is_delete_verb(verb_of(words[i])) {
            target_findings(acc, words, i + 1, false, false)
        } else {
            acc
        };
        deletion_findings(next, words, i + 1)
    }
}

fn is_separator_word(t: &[char]) -> (b: bool)
    ensures
        b == is_word_sep(t@),
{
    is_lit(t, "|") || is_lit(t, ";") || is_lit(t, "&")
}

fn add_target_findings(out: &mut Vec<Finding>, words: &Vec<Vec<char>>, start: usize)
    requires
        start <= words.len(),
    ensures
        findings_view(final(out)@) == target_findings(
            findings_view(old(out)@),
            views(words@),
            start as int,
            false,
            false,
        ),
        no_duplicates(findings_view(old(out)@)) ==> no_duplicates(findings_view(final(out)@)),
{
    let ghost ws = views(words@);
    let ghost goal = target_findings(findings_view(out@), ws, start as int, false, false);
    let ghost dedup = no_duplicates(findings_view(out@));
    let mut recursive = false;
    let mut force = false;
    let mut j = start;
    while j < words.len() && !is_separator_word(words[j].as_slice())
        invariant
            start <= j <= words.len(),
            ws == views(words@),
            goal == target_findings(findings_view(out@), ws, j as int, recursive, force),
            dedup ==> no_duplicates(findings_view(out@)),
        decreases words.len() - j,
    {
        let t = words[j].as_slice();
        assert(t@ == ws[j as int]);
        if t.len() > 0 && t[0] == '-' {
            recursive = recursive || has_char(t, 'r') || contains_lit(t, "recursive");
            force = force || has_char(t, 'f') || contains_lit(t, "force");
        } else if is_critical_target(t) {
            push_unique(out, Severity::Danger, "deletes a critical or unresolved path");
        } else if recursive && force && (is_lit(t, "*") || is_lit(t, ".") || is_lit(t, "./*")) {
            push_unique(out, Severity::Danger, "unscoped recursive deletion");
        }
        j += 1;
    }
    if j < words.len() {
        assert(words@[j as int]@ == ws[j as int]);
    }
}

fn add_deletion_findings(out: &mut Vec<Finding>, words: &Vec<Vec<char>>)
    ensures
        findings_view(final(out)@) == deletion_findings(findings_view(old(out)@), views(words@), 0),
        no_duplicates(findings_view(old(out)@)) ==> no_duplicates(findings_view(final(out)@)),
{
    let ghost ws = views(words@);
    let ghost goal = deletion_findings(findings_view(out@), ws, 0);
    let ghost dedup = no_duplicates(findings_view(out@));
    let mut i: usize = 0;
    while i < words.len()
        invariant
            i <= words.len(),
            ws == views(words@),
            goal == deletion_findings(findings_view(out@), ws, i as int),
            dedup ==> no_duplicates(findings_view(out@)),
        decreases words.len() - i,
    {
        assert(words@[i as int]@ == ws[i as int]);
        if names_delete_verb(words[i].as_slice()) {
            add_target_findings(out, words, i + 1);
        }
        i += 1;
    }
}

/// The cautions: steps that need care but are not destructive by themselves.
pub open spec fn caution_findings(
    acc: Seq<(Severity, Seq<char>)>,
    clean: Seq<char>,
    lower: Seq<char>,
) -> Seq<(Severity, Seq<char>)> {
    let a1 = add_if(acc, contains_seq(lower, "sudo "@), Severity::Caution, "requires sudo"@);
    let a2 = add_if(a1, fetches(lower), Severity::Caution, "contacts the network"@);
    let a3 = add_if(
        a2,
        contains_seq(lower, "rsync "@) && contains_seq(lower, "--delete"@),
        Severity::Caution,
        "rsync --delete removes unmatched destination files"@,
    );
    add_if(
        a3,
        clean.contains('<') && clean.contains('>'),
        Severity::Caution,
        "contains a placeholder that must be replaced"@,
    )
}

fn add_caution_findings(out: &mut Vec<Finding>, clean: &[char], lower: &[char])
    ensures
        findings_view(final(out)@) == caution_findings(findings_view(old(out)@), clean@, lower@),
        no_duplicates(findings_view(old(out)@)) ==> no_duplicates(findings_view(final(out)@)),
{
    if contains_lit(lower, "sudo ") {
        push_unique(out, Severity::Caution, "requires sudo");
    }
    if contains_lit(lower, "curl ") || contains_lit(lower, "wget ") {
        push_unique(out, Severity::Caution, "contacts the network");
    }
    if contains_lit(lower, "rsync ") && contains_lit(lower, "--delete") {
        push_unique(out, Severity::Caution, "rsync --delete removes unmatched destination files");
    }
    if has_char(clean, '<') && has_char(clean, '>') {
        push_unique(out, Severity::Caution, "contains a placeholder that must be replaced");
    }
}

/// The findings for a command whose control sequences are already removed.
pub open spec fn clean_findings(clean: Seq<char>) -> Seq<(Severity, Seq<char>)> {
    let lower = lower_seq(clean);
    let compact = join(white_words(lower), " "@);
    let a = literal_findings(seq![], compact);
    let b = keyword_findings(a, lower);
    let c = deletion_findings(b, shell_words_of(clean), 0);
    caution_findings(c, clean, lower)
}

/// The findings for `command`, in the order the rules are applied, each at most once.
pub open spec fn safety_findings(command: Seq<char>) -> Seq<(Severity, Seq<char>)> {
    clean_findings(stripped(command))
}

/// Conservative static checks. This is a seatbelt, not a shell sandbox.
pub fn check_safety(command: &str) -> (r: Vec<Finding>)
    ensures
        findings_view(r@) == safety_findings(command@),
        no_duplicates(findings_view(r@)),
{
    let input = chars_of(command);
    let clean = strip_chars(input.as_slice());
    let lower = lowercase(clean.as_slice());
    let words = split_white(lower.as_slice());
    let space = chars_of(" ");
    let compact = join_chars(words.as_slice(), space.as_slice());
    let mut out: Vec<Finding> = Vec::new();
    assert(findings_view(out@) =~= seq![]);
    add_literal_findings(&mut out, compact.as_slice());
    add_keyword_findings(&mut out, lower.as_slice());
    let clean_words = shell_words(clean.as_slice());
    add_deletion_findings(&mut out, &clean_words);
    add_caution_findings(&mut out, clean.as_slice(), lower.as_slice());
    out
}

/// Whether any finding is a danger.
pub open spec fn has_danger_spec(f: Seq<(Severity, Seq<char>)>) -> bool {
    exists|i: int| 0 <= i < f.len() && (#[trigger] f[i]).0 == Severity::Danger
}

pub fn has_danger(findings: &Vec<Finding>) -> (b: bool)
    ensures
        b == has_danger_spec(findings_view(findings@)),
{
    let mut i: usize = 0;
    while i < findings.len()
        invariant
            i <= findings.len(),
            forall|j: int| 0 <= j < i ==> (#[trigger] findings_view(findings@)[j]).0 != Severity::Danger,
        decreases findings.len() - i,
    {
        if findings[i].severity == Severity::Danger {
            assert(findings_view(findings@)[i as int].0 == Severity::Danger);
            return true;
        }
        i += 1;
    }
    false
}

/// Control sequences cannot hide a command from the rules: the command with
/// its control sequences removed has exactly the same findings.
pub proof fn control_sequences_cannot_change_findings(command: Seq<char>)
    ensures
        safety_findings(stripped(command)) == safety_findings(command),
{
    crate::controls::strip_controls_idempotent(command);
}

/// No finding is reported twice.
pub proof fn each_finding_is_reported_once(command: Seq<char>)
    ensures
        no_duplicates(safety_findings(command)),
{
    let clean = stripped(command);
    let lower = lower_seq(clean);
    let compact = join(white_words(lower), " "@);
    let a = literal_findings(seq![], compact);
    lemma_literal_no_dup(seq![], compact);
    lemma_keyword_no_dup(a, lower);
    let b = keyword_findings(a, lower);
    lemma_deletion_no_dup(b, shell_words_of(clean), 0);
    let c = deletion_findings(b, shell_words_of(clean), 0);
    lemma_caution_no_dup(c, clean, lower);
}

proof fn lemma_add_if_no_dup(acc: Seq<(Severity, Seq<char>)>, cond: bool, sev: Severity, r: Seq<char>)
    requires
        no_duplicates(acc),
    ensures
        no_duplicates(add_if(acc, cond, sev, r)),
{
    lemma_add_unique_no_duplicates(acc, (sev, r));
}

proof fn lemma_literal_no_dup(acc: Seq<(Severity, Seq<char>)>, compact: Seq<char>)
    requires
        no_duplicates(acc),
    ensures
        no_duplicates(literal_findings(acc, compact)),
{
    broadcast use lemma_add_if_no_dup_b;
}

proof fn lemma_keyword_no_dup(acc: Seq<(Severity, Seq<char>)>, lower: Seq<char>)
    requires
        no_duplicates(acc),
    ensures
        no_duplicates(keyword_findings(acc, lower)),
{
    broadcast use lemma_add_if_no_dup_b;
}

proof fn lemma_caution_no_dup(acc: Seq<(Severity, Seq<char>)>, clean: Seq<char>, lower: Seq<char>)
    requires
        no_duplicates(acc),
    ensures
        no_duplicates(caution_findings(acc, clean, lower)),
{
    broadcast use lemma_add_if_no_dup_b;
}

broadcast proof fn lemma_add_if_no_dup_b(
    acc: Seq<(Severity, Seq<char>)>,
    cond: bool,
    sev: Severity,
    r: Seq<char>,
)
    requires
        no_duplicates(acc),
    ensures
        #[trigger] no_duplicates(add_if(acc, cond, sev, r)),
{
    lemma_add_if_no_dup(acc, cond, sev, r);
}

proof fn lemma_target_no_dup(
    acc: Seq<(Severity, Seq<char>)>,
    words: Seq<Seq<char>>,
    j: int,
    recursive: bool,
    force: bool,
)
    requires
        no_duplicates(acc),
    ensures
        no_duplicates(target_findings(acc, words, j, recursive, force)),
    decreases words.len() - j,
{
    if !(j < 0 || j >= words.len() || is_word_sep(words[j])) {
        let t = words[j];
        if t.len() > 0 && t[0] == '-' {
            lemma_target_no_dup(
                acc,
                words,
                j + 1,
                recursive || t.contains('r') || contains_seq(t, "recursive"@),
                force || t.contains('f') || contains_seq(t, "force"@),
            );
        } else if is_critical_target_spec(t) {
            let f = (Severity::Danger, "deletes a critical or unresolved path"@);
            lemma_add_unique_no_duplicates(acc, f);
            lemma_target_no_dup(add_unique(acc, f), words, j + 1, recursive, force);
        } else if recursive && force && is_unscoped(t) {
            let f = (Severity::Danger, "unscoped recursive deletion"@);
            lemma_add_unique_no_duplicates(acc, f);
            lemma_target_no_dup(add_unique(acc, f), words, j + 1, recursive, force);
        } else {
            lemma_target_no_dup(acc, words, j + 1, recursive, force);
        }
    }
}

proof fn lemma_deletion_no_dup(acc: Seq<(Severity, Seq<char>)>, words: Seq<Seq<char>>, i: int)
    requires
        no_duplicates(acc),
    ensures
        no_duplicates(deletion_findings(acc, words, i)),
    decreases words.len() - i,
{
    if 0 <= i < words.len() {
        if is_delete_verb(verb_of(words[i])) {
            lemma_target_no_dup(acc, words, i + 1, false, false);
            lemma_deletion_no_dup(target_findings(acc, words, i + 1, false, false), words, i + 1);
        } else {
            lemma_deletion_no_dup(acc, words, i + 1);
        }
    }
}


pub open spec fn critical_deletion() -> (Severity, Seq<char>) {
    (Severity::Danger, "deletes a critical or unresolved path"@)
}

proof fn lemma_add_unique_keeps(
    acc: Seq<(Severity, Seq<char>)>,
    g: (Severity, Seq<char>),
    f: (Severity, Seq<char>),
)
    requires
        acc.contains(f),
    ensures
        add_unique(acc, g).contains(f),
{
    if !acc.contains(g) {
        let k = choose|k: int| 0 <= k < acc.len() && acc[k] == f;
        assert(acc.push(g)[k] == f);
    }
}

broadcast proof fn lemma_add_if_keeps(
    acc: Seq<(Severity, Seq<char>)>,
    cond: bool,
    sev: Severity,
    r: Seq<char>,
    f: (Severity, Seq<char>),
)
    requires
        acc.contains(f),
    ensures
        #[trigger] add_if(acc, cond, sev, r).contains(f),
{
    lemma_add_unique_keeps(acc, (sev, r), f);
}

proof fn lemma_target_keeps(
    acc: Seq<(Severity, Seq<char>)>,
    words: Seq<Seq<char>>,
    j: int,
    recursive: bool,
    force: bool,
    f: (Severity, Seq<char>),
)
    requires
        acc.contains(f),
    ensures
        target_findings(acc, words, j, recursive, force).contains(f),
    decreases words.len() - j,
{
    if !(j < 0 || j >= words.len() || is_word_sep(words[j])) {
        let t = words[j];
        if t.len() > 0 && t[0] == '-' {
            lemma_target_keeps(
                acc,
                words,
                j + 1,
                recursive || t.contains('r') || contains_seq(t, "recursive"@),
                force || t.contains('f') || contains_seq(t, "force"@),
                f,
            );
        } else if is_critical_target_spec(t) {
            let g = (Severity::Danger, "deletes a critical or unresolved path"@);
            lemma_add_unique_keeps(acc, g, f);
            lemma_target_keeps(add_unique(acc, g), words, j + 1, recursive, force, f);
        } else if recursive && force && is_unscoped(t) {
            let g = (Severity::Danger, "unscoped recursive deletion"@);
            lemma_add_unique_keeps(acc, g, f);
            lemma_target_keeps(add_unique(acc, g), words, j + 1, recursive, force, f);
        } else {
            lemma_target_keeps(acc, words, j + 1, recursive, force, f);
        }
    }
}

proof fn lemma_deletion_keeps(
    acc: Seq<(Severity, Seq<char>)>,
    words: Seq<Seq<char>>,
    i: int,
    f: (Severity, Seq<char>),
)
    requires
        acc.contains(f),
    ensures
        deletion_findings(acc, words, i).contains(f),
    decreases words.len() - i,
{
    if 0 <= i < words.len() {
        if is_delete_verb(verb_of(words[i])) {
            lemma_target_keeps(acc, words, i + 1, false, false, f);
            lemma_deletion_keeps(target_findings(acc, words, i + 1, false, false), words, i + 1, f);
        } else {
            lemma_deletion_keeps(acc, words, i + 1, f);
        }
    }
}

proof fn lemma_target_reaches(
    acc: Seq<(Severity, Seq<char>)>,
    words: Seq<Seq<char>>,
    k: int,
    j: int,
    recursive: bool,
    force: bool,
)
    requires
        0 <= k <= j < words.len(),
        forall|m: int| k <= m <= j ==> !is_word_sep(#[trigger] words[m]),
        !(words[j].len() > 0 && words[j][0] == '-'),
        is_critical_target_spec(words[j]),
    ensures
        target_findings(acc, words, k, recursive, force).contains(critical_deletion()),
    decreases j - k,
{
    let t = words[k];
    assert(!is_word_sep(words[k]));
    if k == j {
        let a2 = add_unique(acc, critical_deletion());
        if !acc.contains(critical_deletion()) {
            assert(a2[acc.len() as int] == critical_deletion());
        }
        lemma_target_keeps(a2, words, k + 1, recursive, force, critical_deletion());
    } else if t.len() > 0 && t[0] == '-' {
        lemma_target_reaches(
            acc,
            words,
            k + 1,
            j,
            recursive || t.contains('r') || contains_seq(t, "recursive"@),
            force || t.contains('f') || contains_seq(t, "force"@),
        );
    } else if is_critical_target_spec(t) {
        lemma_target_reaches(add_unique(acc, critical_deletion()), words, k + 1, j, recursive, force);
    } else if recursive && force && is_unscoped(t) {
        lemma_target_reaches(
            add_unique(acc, (Severity::Danger, "unscoped recursive deletion"@)),
            words,
            k + 1,
            j,
            recursive,
            force,
        );
    } else {
        lemma_target_reaches(acc, words, k + 1, j, recursive, force);
    }
}

proof fn lemma_deletion_reaches(
    acc: Seq<(Severity, Seq<char>)>,
    words: Seq<Seq<char>>,
    m: int,
    i: int,
    j: int,
)
    requires
        0 <= m <= i < j < words.len(),
        is_delete_verb(verb_of(words[i])),
        forall|k: int| i < k <= j ==> !is_word_sep(#[trigger] words[k]),
        !(words[j].len() > 0 && words[j][0] == '-'),
        is_critical_target_spec(words[j]),
    ensures
        deletion_findings(acc, words, m).contains(critical_deletion()),
    decreases i - m,
{
    let next = if is_delete_verb(verb_of(words[m])) {
        target_findings(acc, words, m + 1, false, false)
    } else {
        acc
    };
    if m == i {
        lemma_target_reaches(acc, words, i + 1, j, false, false);
        lemma_deletion_keeps(next, words, m + 1, critical_deletion());
    } else {
        lemma_deletion_reaches(next, words, m + 1, i, j);
    }
}

/// A deletion command (`rm`, `rmdir`, `shred` or `unlink`, by any path) whose
/// target list reaches a critical or unresolved path, with no `|`, `;` or `&`
/// in between, is always reported as a danger.
pub proof fn critical_deletions_are_dangers(command: Seq<char>, i: int, j: int)
    requires
        0 <= i < j < shell_words_of(stripped(command)).len(),
        is_delete_verb(verb_of(shell_words_of(stripped(command))[i])),
        forall|k: int|
            i < k <= j ==> !is_word_sep(#[trigger] shell_words_of(stripped(command))[k]),
        !(shell_words_of(stripped(command))[j].len() > 0 && shell_words_of(stripped(command))[j][0]
            == '-'),
        is_critical_target_spec(shell_words_of(stripped(command))[j]),
    ensures
        safety_findings(command).contains(critical_deletion()),
{
    broadcast use lemma_add_if_keeps;

    let clean = stripped(command);
    let lower = lower_seq(clean);
    let compact = join(white_words(lower), " "@);
    let a = literal_findings(seq![], compact);
    let b = keyword_findings(a, lower);
    let ws = shell_words_of(clean);
    lemma_deletion_reaches(b, ws, 0, i, j);
    let c = deletion_findings(b, ws, 0);
    assert(caution_findings(c, clean, lower).contains(critical_deletion()));
}


pub open spec fn piped_download() -> (Severity, Seq<char>) {
    (Severity::Danger, "pipes remote content directly into an interpreter"@)
}

/// A command that downloads (`curl ` or `wget `), pipes, and names an
/// interpreter is always reported as a danger.
pub proof fn piped_downloads_are_dangers(command: Seq<char>)
    requires
        fetches(lower_seq(stripped(command))),
        lower_seq(stripped(command)).contains('|'),
        names_interpreter(lower_seq(stripped(command))),
    ensures
        safety_findings(command).contains(piped_download()),
{
    broadcast use lemma_add_if_keeps;

    let clean = stripped(command);
    let lower = lower_seq(clean);
    let compact = join(white_words(lower), " "@);
    let a = literal_findings(seq![], compact);
    let words = shell_words_of(lower);
    let a1 = add_if(
        a,
        exists|k: int| 0 <= k < words.len() && is_power_word(#[trigger] words[k]),
        Severity::Danger,
        "shuts the machine down"@,
    );
    let a2 = add_unique(a1, piped_download());
    if !a1.contains(piped_download()) {
        assert(a2[a1.len() as int] == piped_download());
    }
    let b = keyword_findings(a, lower);
    assert(b.contains(piped_download()));
    let ws = shell_words_of(clean);
    lemma_deletion_keeps(b, ws, 0, piped_download());
    let c = deletion_findings(b, ws, 0);
    assert(caution_findings(c, clean, lower).contains(piped_download()));
}


pub open spec fn included(x: Seq<(Severity, Seq<char>)>, y: Seq<(Severity, Seq<char>)>) -> bool {
    forall|f: (Severity, Seq<char>)| x.contains(f) ==> y.contains(f)
}

proof fn lemma_add_unique_has(acc: Seq<(Severity, Seq<char>)>, g: (Severity, Seq<char>))
    ensures
        add_unique(acc, g).contains(g),
{
    if !acc.contains(g) {
        assert(acc.push(g)[acc.len() as int] == g);
    }
}

proof fn lemma_add_if_mono(
    a1: Seq<(Severity, Seq<char>)>,
    a2: Seq<(Severity, Seq<char>)>,
    c1: bool,
    c2: bool,
    sev: Severity,
    r: Seq<char>,
)
    requires
        included(a1, a2),
        c1 ==> c2,
    ensures
        included(add_if(a1, c1, sev, r), add_if(a2, c2, sev, r)),
{
    assert forall|f: (Severity, Seq<char>)| add_if(a1, c1, sev, r).contains(f) implies add_if(
        a2,
        c2,
        sev,
        r,
    ).contains(f) by {
        if a1.contains(f) {
            lemma_add_unique_keeps(a2, (sev, r), f);
        } else {
            lemma_add_unique_has(a2, (sev, r));
        }
    }
}

proof fn lemma_add_unique_mono(
    a1: Seq<(Severity, Seq<char>)>,
    a2: Seq<(Severity, Seq<char>)>,
    g: (Severity, Seq<char>),
)
    requires
        included(a1, a2),
    ensures
        included(add_unique(a1, g), add_unique(a2, g)),
{
    lemma_add_if_mono(a1, a2, true, true, g.0, g.1);
}

proof fn lemma_literal_mono(
    a1: Seq<(Severity, Seq<char>)>,
    a2: Seq<(Severity, Seq<char>)>,
    c1: Seq<char>,
    c2: Seq<char>,
)
    requires
        included(a1, a2),
        forall|n: Seq<char>| contains_seq(c1, n) ==> contains_seq(c2, n),
    ensures
        included(literal_findings(a1, c1), literal_findings(a2, c2)),
{
    lemma_add_if_mono(a1, a2, contains_seq(c1, "git reset --hard"@), contains_seq(c2, "git reset --hard"@), Severity::Danger, "git reset --hard discards uncommitted work"@);
    let x0 = add_if(a1, contains_seq(c1, "git reset --hard"@), Severity::Danger, "git reset --hard discards uncommitted work"@);
    let y0 = add_if(a2, contains_seq(c2, "git reset --hard"@), Severity::Danger, "git reset --hard discards uncommitted work"@);
    lemma_add_if_mono(x0, y0, contains_seq(c1, "git clean -xdf"@), contains_seq(c2, "git clean -xdf"@), Severity::Danger, "git clean deletes untracked files irrecoverably"@);
    let x1 = add_if(x0, contains_seq(c1, "git clean -xdf"@), Severity::Danger, "git clean deletes untracked files irrecoverably"@);
    let y1 = add_if(y0, contains_seq(c2, "git clean -xdf"@), Severity::Danger, "git clean deletes untracked files irrecoverably"@);
    lemma_add_if_mono(x1, y1, contains_seq(c1, "git clean -fdx"@), contains_seq(c2, "git clean -fdx"@), Severity::Danger, "git clean deletes untracked files irrecoverably"@);
    let x2 = add_if(x1, contains_seq(c1, "git clean -fdx"@), Severity::Danger, "git clean deletes untracked files irrecoverably"@);
    let y2 = add_if(y1, contains_seq(c2, "git clean -fdx"@), Severity::Danger, "git clean deletes untracked files irrecoverably"@);
    lemma_add_if_mono(x2, y2, contains_seq(c1, "--no-preserve-root"@), contains_seq(c2, "--no-preserve-root"@), Severity::Danger, "explicitly overrides rm's root guard"@);
    let x3 = add_if(x2, contains_seq(c1, "--no-preserve-root"@), Severity::Danger, "explicitly overrides rm's root guard"@);
    let y3 = add_if(y2, contains_seq(c2, "--no-preserve-root"@), Severity::Danger, "explicitly overrides rm's root guard"@);
    lemma_add_if_mono(x3, y3, contains_seq(c1, "crontab -r"@), contains_seq(c2, "crontab -r"@), Severity::Danger, "deletes the entire user crontab"@);
    let x4 = add_if(x3, contains_seq(c1, "crontab -r"@), Severity::Danger, "deletes the entire user crontab"@);
    let y4 = add_if(y3, contains_seq(c2, "crontab -r"@), Severity::Danger, "deletes the entire user crontab"@);
    lemma_add_if_mono(x4, y4, contains_seq(c1, "nft flush ruleset"@), contains_seq(c2, "nft flush ruleset"@), Severity::Danger, "flushes firewall rules and can lock you out"@);
    let x5 = add_if(x4, contains_seq(c1, "nft flush ruleset"@), Severity::Danger, "flushes firewall rules and can lock you out"@);
    let y5 = add_if(y4, contains_seq(c2, "nft flush ruleset"@), Severity::Danger, "flushes firewall rules and can lock you out"@);
    lemma_add_if_mono(x5, y5, contains_seq(c1, "history -c"@), contains_seq(c2, "history -c"@), Severity::Danger, "erases shell history"@);
    let x6 = add_if(x5, contains_seq(c1, "history -c"@), Severity::Danger, "erases shell history"@);
    let y6 = add_if(y5, contains_seq(c2, "history -c"@), Severity::Danger, "erases shell history"@);
    lemma_add_if_mono(x6, y6, contains_seq(c1, "nopasswd"@), contains_seq(c2, "nopasswd"@), Severity::Danger, "grants passwordless sudo"@);
    let x7 = add_if(x6, contains_seq(c1, "nopasswd"@), Severity::Danger, "grants passwordless sudo"@);
    let y7 = add_if(y6, contains_seq(c2, "nopasswd"@), Severity::Danger, "grants passwordless sudo"@);
    lemma_add_if_mono(x7, y7, contains_seq(c1, ":(){ :|:& };:"@), contains_seq(c2, ":(){ :|:& };:"@), Severity::Danger, "fork bomb"@);
    let x8 = add_if(x7, contains_seq(c1, ":(){ :|:& };:"@), Severity::Danger, "fork bomb"@);
    let y8 = add_if(y7, contains_seq(c2, ":(){ :|:& };:"@), Severity::Danger, "fork bomb"@);
    lemma_add_if_mono(x8, y8, contains_seq(c1, ":() { :|: & }; :"@), contains_seq(c2, ":() { :|: & }; :"@), Severity::Danger, "fork bomb"@);
    let x9 = add_if(x8, contains_seq(c1, ":() { :|: & }; :"@), Severity::Danger, "fork bomb"@);
    let y9 = add_if(y8, contains_seq(c2, ":() { :|: & }; :"@), Severity::Danger, "fork bomb"@);
}

proof fn lemma_keyword_mono(
    a1: Seq<(Severity, Seq<char>)>,
    a2: Seq<(Severity, Seq<char>)>,
    l1: Seq<char>,
    l2: Seq<char>,
)
    requires
        included(a1, a2),
        forall|n: Seq<char>| contains_seq(l1, n) ==> contains_seq(l2, n),
        l1.contains('|') ==> l2.contains('|'),
        (exists|k: int|
            0 <= k < shell_words_of(l1).len() && is_power_word(#[trigger] shell_words_of(l1)[k]))
            ==> (exists|k: int|
            0 <= k < shell_words_of(l2).len() && is_power_word(#[trigger] shell_words_of(l2)[k])),
    ensures
        included(keyword_findings(a1, l1), keyword_findings(a2, l2)),
{
    let w1 = shell_words_of(l1);
    let w2 = shell_words_of(l2);
    let p1 = exists|k: int| 0 <= k < w1.len() && is_power_word(#[trigger] w1[k]);
    let p2 = exists|k: int| 0 <= k < w2.len() && is_power_word(#[trigger] w2[k]);
    lemma_add_if_mono(a1, a2, p1, p2, Severity::Danger, "shuts the machine down"@);
    let x1 = add_if(a1, p1, Severity::Danger, "shuts the machine down"@);
    let y1 = add_if(a2, p2, Severity::Danger, "shuts the machine down"@);
    let q1 = fetches(l1) && l1.contains('|') && names_interpreter(l1);
    let q2 = fetches(l2) && l2.contains('|') && names_interpreter(l2);
    lemma_add_if_mono(x1, y1, q1, q2, Severity::Danger, "pipes remote content directly into an interpreter"@);
    let x2 = add_if(x1, q1, Severity::Danger, "pipes remote content directly into an interpreter"@);
    let y2 = add_if(y1, q2, Severity::Danger, "pipes remote content directly into an interpreter"@);
    let r1 = contains_seq(l1, "/dev/tcp/"@) && names_shell(l1);
    let r2 = contains_seq(l2, "/dev/tcp/"@) && names_shell(l2);
    lemma_add_if_mono(x2, y2, r1, r2, Severity::Danger, "possible reverse shell"@);
    let x3 = add_if(x2, r1, Severity::Danger, "possible reverse shell"@);
    let y3 = add_if(y2, r2, Severity::Danger, "possible reverse shell"@);
    let s1 = names_disk_wiper(l1) && contains_seq(l1, "/dev/"@);
    let s2 = names_disk_wiper(l2) && contains_seq(l2, "/dev/"@);
    lemma_add_if_mono(x3, y3, s1, s2, Severity::Danger, "wipes or reformats a block device"@);
    let x4 = add_if(x3, s1, Severity::Danger, "wipes or reformats a block device"@);
    let y4 = add_if(y3, s2, Severity::Danger, "wipes or reformats a block device"@);
    let t1 = contains_seq(l1, "dd "@) && contains_seq(l1, "of=/dev/"@);
    let t2 = contains_seq(l2, "dd "@) && contains_seq(l2, "of=/dev/"@);
    lemma_add_if_mono(x4, y4, t1, t2, Severity::Danger, "overwrites a block device"@);
    let x5 = add_if(x4, t1, Severity::Danger, "overwrites a block device"@);
    let y5 = add_if(y4, t2, Severity::Danger, "overwrites a block device"@);
    let u1 = contains_seq(l1, "> /etc/"@) || contains_seq(l1, ">|/etc/"@);
    let u2 = contains_seq(l2, "> /etc/"@) || contains_seq(l2, ">|/etc/"@);
    lemma_add_if_mono(x5, y5, u1, u2, Severity::Danger, "overwrites a critical system file"@);
}

proof fn lemma_caution_mono(
    a1: Seq<(Severity, Seq<char>)>,
    a2: Seq<(Severity, Seq<char>)>,
    k1: Seq<char>,
    k2: Seq<char>,
    l1: Seq<char>,
    l2: Seq<char>,
)
    requires
        included(a1, a2),
        forall|n: Seq<char>| contains_seq(l1, n) ==> contains_seq(l2, n),
        k1.contains('<') ==> k2.contains('<'),
        k1.contains('>') ==> k2.contains('>'),
    ensures
        included(caution_findings(a1, k1, l1), caution_findings(a2, k2, l2)),
{
    let c1 = contains_seq(l1, "sudo "@);
    let c2 = contains_seq(l2, "sudo "@);
    lemma_add_if_mono(a1, a2, c1, c2, Severity::Caution, "requires sudo"@);
    let x1 = add_if(a1, c1, Severity::Caution, "requires sudo"@);
    let y1 = add_if(a2, c2, Severity::Caution, "requires sudo"@);
    lemma_add_if_mono(x1, y1, fetches(l1), fetches(l2), Severity::Caution, "contacts the network"@);
    let x2 = add_if(x1, fetches(l1), Severity::Caution, "contacts the network"@);
    let y2 = add_if(y1, fetches(l2), Severity::Caution, "contacts the network"@);
    let d1 = contains_seq(l1, "rsync "@) && contains_seq(l1, "--delete"@);
    let d2 = contains_seq(l2, "rsync "@) && contains_seq(l2, "--delete"@);
    lemma_add_if_mono(
        x2,
        y2,
        d1,
        d2,
        Severity::Caution,
        "rsync --delete removes unmatched destination files"@,
    );
    let x3 = add_if(x2, d1, Severity::Caution, "rsync --delete removes unmatched destination files"@);
    let y3 = add_if(y2, d2, Severity::Caution, "rsync --delete removes unmatched destination files"@);
    lemma_add_if_mono(
        x3,
        y3,
        k1.contains('<') && k1.contains('>'),
        k2.contains('<') && k2.contains('>'),
        Severity::Caution,
        "contains a placeholder that must be replaced"@,
    );
}

proof fn lemma_included_keeps_more(
    a1: Seq<(Severity, Seq<char>)>,
    a2: Seq<(Severity, Seq<char>)>,
    words: Seq<Seq<char>>,
    i: int,
)
    requires
        included(a1, a2),
    ensures
        included(a1, deletion_findings(a2, words, i)),
{
    assert forall|f: (Severity, Seq<char>)| a1.contains(f) implies deletion_findings(
        a2,
        words,
        i,
    ).contains(f) by {
        lemma_deletion_keeps(a2, words, i, f);
    }
}

/// Scanning targets goes the same way in a list of words and in that list
/// followed by `;` and more words.
proof fn lemma_target_mono(
    a1: Seq<(Severity, Seq<char>)>,
    a2: Seq<(Severity, Seq<char>)>,
    w1: Seq<Seq<char>>,
    rest: Seq<Seq<char>>,
    j: int,
    recursive: bool,
    force: bool,
)
    requires
        included(a1, a2),
        0 <= j <= w1.len(),
        rest.len() > 0,
        is_word_sep(rest[0]),
    ensures
        included(
            target_findings(a1, w1, j, recursive, force),
            target_findings(a2, w1 + rest, j, recursive, force),
        ),
    decreases w1.len() - j,
{
    let w2 = w1 + rest;
    if j < w1.len() {
        assert(w2[j] == w1[j]);
        if !is_word_sep(w1[j]) {
            let t = w1[j];
            if t.len() > 0 && t[0] == '-' {
                lemma_target_mono(
                    a1,
                    a2,
                    w1,
                    rest,
                    j + 1,
                    recursive || t.contains('r') || contains_seq(t, "recursive"@),
                    force || t.contains('f') || contains_seq(t, "force"@),
                );
            } else if is_critical_target_spec(t) {
                let g = (Severity::Danger, "deletes a critical or unresolved path"@);
                lemma_add_unique_mono(a1, a2, g);
                lemma_target_mono(add_unique(a1, g), add_unique(a2, g), w1, rest, j + 1, recursive, force);
            } else if recursive && force && is_unscoped(t) {
                let g = (Severity::Danger, "unscoped recursive deletion"@);
                lemma_add_unique_mono(a1, a2, g);
                lemma_target_mono(add_unique(a1, g), add_unique(a2, g), w1, rest, j + 1, recursive, force);
            } else {
                lemma_target_mono(a1, a2, w1, rest, j + 1, recursive, force);
            }
        }
    } else {
        assert(w2[j] == rest[0]);
    }
}

proof fn lemma_deletion_mono(
    a1: Seq<(Severity, Seq<char>)>,
    a2: Seq<(Severity, Seq<char>)>,
    w1: Seq<Seq<char>>,
    rest: Seq<Seq<char>>,
    i: int,
)
    requires
        included(a1, a2),
        0 <= i <= w1.len(),
        rest.len() > 0,
        is_word_sep(rest[0]),
    ensures
        included(deletion_findings(a1, w1, i), deletion_findings(a2, w1 + rest, i)),
    decreases w1.len() - i,
{
    let w2 = w1 + rest;
    if i < w1.len() {
        assert(w2[i] == w1[i]);
        if is_delete_verb(verb_of(w1[i])) {
            lemma_target_mono(a1, a2, w1, rest, i + 1, false, false);
            lemma_deletion_mono(
                target_findings(a1, w1, i + 1, false, false),
                target_findings(a2, w2, i + 1, false, false),
                w1,
                rest,
                i + 1,
            );
        } else {
            lemma_deletion_mono(a1, a2, w1, rest, i + 1);
        }
    } else {
        lemma_included_keeps_more(a1, a2, w2, i);
    }
}

/// One character's effect on the shell-word state.
pub open spec fn shell_step(
    words: Seq<Seq<char>>,
    word: Seq<char>,
    quote: Option<char>,
    escaped: bool,
    c: char,
) -> (Seq<Seq<char>>, Seq<char>, Option<char>, bool) {
    if escaped {
        (words, word.push(c), quote, false)
    } else if c == '\\' && quote != Some('\'') {
        (words, word, quote, true)
    } else if quote is Some {
        if c == quote->0 {
            (words, word, None, false)
        } else {
            (words, word.push(c), quote, false)
        }
    } else if c == '\'' || c == '"' {
        (words, word, Some(c), false)
    } else if is_white_char(c) || is_shell_sep(c) {
        let ended = if word.len() > 0 {
            words.push(word)
        } else {
            words
        };
        let with_sep = if is_shell_sep(c) {
            ended.push(seq![c])
        } else {
            ended
        };
        (with_sep, seq![], quote, false)
    } else {
        (words, word.push(c), quote, false)
    }
}

/// The shell-word state at the end of `s`.
pub open spec fn shell_state(
    s: Seq<char>,
    i: int,
    words: Seq<Seq<char>>,
    word: Seq<char>,
    quote: Option<char>,
    escaped: bool,
) -> (Seq<Seq<char>>, Seq<char>, Option<char>, bool)
    decreases s.len() - i,
{
    if i < 0 || i >= s.len() {
        (words, word, quote, escaped)
    } else {
        let st = shell_step(words, word, quote, escaped, s[i]);
        shell_state(s, i + 1, st.0, st.1, st.2, st.3)
    }
}

proof fn lemma_shell_from_state(
    s: Seq<char>,
    i: int,
    w: Seq<Seq<char>>,
    wd: Seq<char>,
    q: Option<char>,
    e: bool,
)
    requires
        0 <= i,
    ensures
        shell_from(s, i, w, wd, q, e) == finish_lines(
            (shell_state(s, i, w, wd, q, e).0, shell_state(s, i, w, wd, q, e).1),
        ),
    decreases s.len() - i,
{
    if i < s.len() {
        let st = shell_step(w, wd, q, e, s[i]);
        lemma_shell_from_state(s, i + 1, st.0, st.1, st.2, st.3);
    }
}

proof fn lemma_shell_step_factor(
    d: Seq<Seq<char>>,
    w: Seq<Seq<char>>,
    wd: Seq<char>,
    q: Option<char>,
    e: bool,
    c: char,
)
    ensures
        shell_step(d + w, wd, q, e, c).0 == d + shell_step(w, wd, q, e, c).0,
        shell_step(d + w, wd, q, e, c).1 == shell_step(w, wd, q, e, c).1,
        shell_step(d + w, wd, q, e, c).2 == shell_step(w, wd, q, e, c).2,
        shell_step(d + w, wd, q, e, c).3 == shell_step(w, wd, q, e, c).3,
{
    assert((d + w).push(wd) =~= d + w.push(wd));
    assert((d + w).push(seq![c]) =~= d + w.push(seq![c]));
    assert((d + w).push(wd).push(seq![c]) =~= d + w.push(wd).push(seq![c]));
}

proof fn lemma_shell_state_factor(
    s: Seq<char>,
    i: int,
    d: Seq<Seq<char>>,
    w: Seq<Seq<char>>,
    wd: Seq<char>,
    q: Option<char>,
    e: bool,
)
    requires
        0 <= i,
    ensures
        shell_state(s, i, d + w, wd, q, e).0 == d + shell_state(s, i, w, wd, q, e).0,
        shell_state(s, i, d + w, wd, q, e).1 == shell_state(s, i, w, wd, q, e).1,
        shell_state(s, i, d + w, wd, q, e).2 == shell_state(s, i, w, wd, q, e).2,
        shell_state(s, i, d + w, wd, q, e).3 == shell_state(s, i, w, wd, q, e).3,
    decreases s.len() - i,
{
    if i < s.len() {
        lemma_shell_step_factor(d, w, wd, q, e, s[i]);
        let st = shell_step(w, wd, q, e, s[i]);
        lemma_shell_state_factor(s, i + 1, d, st.0, st.1, st.2, st.3);
    }
}

proof fn lemma_shell_state_offset(
    x: Seq<char>,
    z: Seq<char>,
    j: int,
    w: Seq<Seq<char>>,
    wd: Seq<char>,
    q: Option<char>,
    e: bool,
)
    requires
        0 <= j <= z.len(),
    ensures
        shell_state(x + z, x.len() + j, w, wd, q, e) == shell_state(z, j, w, wd, q, e),
    decreases z.len() - j,
{
    if j < z.len() {
        assert((x + z)[x.len() + j] == z[j]);
        let st = shell_step(w, wd, q, e, z[j]);
        lemma_shell_state_offset(x, z, j + 1, st.0, st.1, st.2, st.3);
    }
}

proof fn lemma_shell_state_concat(
    x: Seq<char>,
    z: Seq<char>,
    i: int,
    w: Seq<Seq<char>>,
    wd: Seq<char>,
    q: Option<char>,
    e: bool,
)
    requires
        0 <= i <= x.len(),
    ensures
        shell_state(x + z, i, w, wd, q, e) == ({
            let st = shell_state(x, i, w, wd, q, e);
            shell_state(z, 0, st.0, st.1, st.2, st.3)
        }),
    decreases x.len() - i,
{
    if i < x.len() {
        assert((x + z)[i] == x[i]);
        let st = shell_step(w, wd, q, e, x[i]);
        lemma_shell_state_concat(x, z, i + 1, st.0, st.1, st.2, st.3);
    } else {
        lemma_shell_state_offset(x, z, 0, w, wd, q, e);
    }
}

pub open spec fn is_quote_free(s: Seq<char>) -> bool {
    forall|k: int| 0 <= k < s.len() ==> #[trigger] s[k] != '\'' && s[k] != '"' && s[k] != '\\'
}

proof fn lemma_shell_state_quote_free(
    s: Seq<char>,
    i: int,
    w: Seq<Seq<char>>,
    wd: Seq<char>,
)
    requires
        0 <= i,
        is_quote_free(s),
    ensures
        shell_state(s, i, w, wd, None, false).2 == None::<char>,
        !shell_state(s, i, w, wd, None, false).3,
    decreases s.len() - i,
{
    if i < s.len() {
        assert(s[i] != '\'' && s[i] != '"' && s[i] != '\\');
        let st = shell_step(w, wd, None, false, s[i]);
        lemma_shell_state_quote_free(s, i + 1, st.0, st.1);
    }
}

/// The shell words of a quote-free command, `; ` and another command: the
/// words of the first, the separator `;`, the words of the second.
proof fn lemma_shell_words_sequence(a: Seq<char>, b: Seq<char>)
    requires
        is_quote_free(a),
    ensures
        shell_words_of(a + "; "@ + b) == shell_words_of(a) + seq![seq![';']] + shell_words_of(b),
{
    reveal_strlit("; ");
    let t = "; "@;
    assert(t =~= seq![';', ' ']);
    let e: Seq<Seq<char>> = seq![];
    let ew: Seq<char> = seq![];
    let sa = shell_state(a, 0, e, ew, None, false);
    lemma_shell_state_quote_free(a, 0, e, ew);
    lemma_shell_state_concat(a, t, 0, e, ew, None, false);
    let wa = finish_lines((sa.0, sa.1));
    let d = wa.push(seq![';']);
    assert(shell_step(sa.0, sa.1, None, false, ';') == (d, ew, None::<char>, false));
    assert(shell_step(d, ew, None, false, ' ') == (d, ew, None::<char>, false));
    assert(t[0] == ';' && t[1] == ' ');
    assert(shell_state(t, 2, d, ew, None, false) == (d, ew, None::<char>, false));
    assert(shell_state(t, 1, d, ew, None, false) == shell_state(t, 2, d, ew, None, false));
    assert(shell_state(t, 0, sa.0, sa.1, None, false) == shell_state(t, 1, d, ew, None, false));
    assert(shell_state(t, 0, sa.0, sa.1, sa.2, sa.3) == (d, ew, None::<char>, false));
    lemma_shell_state_concat(a + t, b, 0, e, ew, None, false);
    assert(d =~= d + e);
    lemma_shell_state_factor(b, 0, d, e, ew, None, false);
    let sb = shell_state(b, 0, e, ew, None, false);
    lemma_shell_from_state(a + t + b, 0, e, ew, None, false);
    lemma_shell_from_state(a, 0, e, ew, None, false);
    lemma_shell_from_state(b, 0, e, ew, None, false);
    assert(d + e =~= d);
    if sb.1.len() > 0 {
        assert((d + sb.0).push(sb.1) =~= d + sb.0.push(sb.1));
    }
    assert(d =~= shell_words_of(a) + seq![seq![';']]);
}

/// Appending another command after `; ` never takes back a finding: every
/// finding of a plain, quote-free command is a finding of that command
/// followed by `; ` and any plain command.
pub proof fn appending_a_command_keeps_findings(a: Seq<char>, b: Seq<char>)
    requires
        plain(a),
        plain(b),
        is_quote_free(a),
    ensures
        included(safety_findings(a), safety_findings(a + "; "@ + b)),
{
    reveal_strlit("; ");
    let t = "; "@;
    assert(t =~= seq![';', ' ']);
    let x = a + t + b;
    assert(plain(t)) by {
        assert(keeps(t[0]) && keeps(t[1]));
    }
    lemma_plain_concat(a, t);
    lemma_plain_concat(a + t, b);
    stripped_plain(a);
    stripped_plain(x);
    let la = lower_seq(a);
    let lx = lower_seq(x);
    assert(lx =~= la + t + lower_seq(b));
    assert(is_prefix(la, lx)) by {
        assert(lx.take(la.len() as int) =~= la);
    }
    assert(is_prefix(a, x)) by {
        assert(x.take(a.len() as int) =~= a);
    }
    assert forall|n: Seq<char>| contains_seq(la, n) implies contains_seq(lx, n) by {
        lemma_contains_prefix(la, lx, n);
    }
    assert(la.contains('|') ==> lx.contains('|')) by {
        if la.contains('|') {
            let k = choose|k: int| 0 <= k < la.len() && la[k] == '|';
            assert(lx[k] == '|');
        }
    }
    assert(a.contains('<') ==> x.contains('<')) by {
        if a.contains('<') {
            let k = choose|k: int| 0 <= k < a.len() && a[k] == '<';
            assert(x[k] == '<');
        }
    }
    assert(a.contains('>') ==> x.contains('>')) by {
        if a.contains('>') {
            let k = choose|k: int| 0 <= k < a.len() && a[k] == '>';
            assert(x[k] == '>');
        }
    }
    // The normalised text of the first command begins that of both.
    let ca = join(white_words(la), " "@);
    let cx = join(white_words(lx), " "@);
    assert(lx =~= la + (t + lower_seq(b)));
    lemma_compact_prefix(la, t + lower_seq(b));
    assert forall|n: Seq<char>| contains_seq(ca, n) implies contains_seq(cx, n) by {
        lemma_contains_prefix(ca, cx, n);
    }
    // Shell words: the first command's come first, then `;`.
    assert(is_quote_free(la)) by {
        assert forall|k: int| 0 <= k < la.len() implies #[trigger] la[k] != '\'' && la[k] != '"'
            && la[k] != '\\' by {
            assert(a[k] != '\'' && a[k] != '"' && a[k] != '\\');
        }
    }
    lemma_shell_words_sequence(la, lower_seq(b));
    lemma_shell_words_sequence(a, b);
    let wla = shell_words_of(la);
    let wlx = shell_words_of(lx);
    assert(lx =~= la + "; "@ + lower_seq(b));
    assert((exists|k: int| 0 <= k < wla.len() && is_power_word(#[trigger] wla[k])) ==> (exists|
        k: int,
    | 0 <= k < wlx.len() && is_power_word(#[trigger] wlx[k]))) by {
        if exists|k: int| 0 <= k < wla.len() && is_power_word(#[trigger] wla[k]) {
            let k = choose|k: int| 0 <= k < wla.len() && is_power_word(#[trigger] wla[k]);
            assert(wlx[k] == wla[k]);
        }
    }
    let e: Seq<(Severity, Seq<char>)> = seq![];
    assert(included(e, e));
    lemma_literal_mono(e, e, ca, cx);
    let a1 = literal_findings(e, ca);
    let a2 = literal_findings(e, cx);
    lemma_keyword_mono(a1, a2, la, lx);
    let b1 = keyword_findings(a1, la);
    let b2 = keyword_findings(a2, lx);
    let wa = shell_words_of(a);
    let rest = seq![seq![';']] + shell_words_of(b);
    reveal_strlit(";");
    assert(rest[0] =~= ";"@);
    assert(x =~= a + "; "@ + b);
    assert(shell_words_of(x) =~= wa + rest);
    lemma_deletion_mono(b1, b2, wa, rest, 0);
    let c1 = deletion_findings(b1, wa, 0);
    let c2 = deletion_findings(b2, wa + rest, 0);
    lemma_caution_mono(c1, c2, a, x, la, lx);
}


/// A word the shell reads as it stands: not empty, no white space, no `| ; &`,
/// no quote and no backslash.
pub open spec fn simple_word(w: Seq<char>) -> bool {
    &&& w.len() > 0
    &&& forall|k: int|
        0 <= k < w.len() ==> !is_white_char(#[trigger] w[k]) && !is_shell_sep(w[k]) && w[k] != '\''
            && w[k] != '"' && w[k] != '\\'
}

proof fn lemma_shell_state_simple(x: Seq<char>, i: int, d: Seq<Seq<char>>, wd: Seq<char>)
    requires
        0 <= i <= x.len(),
        forall|k: int|
            0 <= k < x.len() ==> !is_white_char(#[trigger] x[k]) && !is_shell_sep(x[k]) && x[k]
                != '\'' && x[k] != '"' && x[k] != '\\',
    ensures
        shell_state(x, i, d, wd, None, false) == (d, wd + x.skip(i), None::<char>, false),
    decreases x.len() - i,
{
    if i < x.len() {
        assert(!is_white_char(x[i]) && !is_shell_sep(x[i]) && x[i] != '\'' && x[i] != '"' && x[i]
            != '\\');
        lemma_shell_state_simple(x, i + 1, d, wd.push(x[i]));
        assert(wd.push(x[i]) + x.skip(i + 1) =~= wd + x.skip(i));
    } else {
        assert(wd + x.skip(i) =~= wd);
    }
}

/// Three simple words between single spaces are three shell words.
proof fn lemma_three_shell_words(a: Seq<char>, b: Seq<char>, c: Seq<char>)
    requires
        simple_word(a),
        simple_word(b),
        simple_word(c),
    ensures
        shell_words_of(a + seq![' '] + b + seq![' '] + c) == seq![a, b, c],
{
    let sp = seq![' '];
    let e: Seq<Seq<char>> = seq![];
    let ew: Seq<char> = seq![];
    assert(is_white_char(' '));
    lemma_shell_state_simple(a, 0, e, ew);
    assert(ew + a.skip(0) =~= a);
    lemma_shell_state_concat(a, sp, 0, e, ew, None, false);
    assert(shell_state(sp, 1, seq![a], ew, None, false) == (seq![a], ew, None::<char>, false));
    assert(e.push(a) =~= seq![a]);
    lemma_shell_state_concat(a + sp, b, 0, e, ew, None, false);
    lemma_shell_state_simple(b, 0, seq![a], ew);
    assert(ew + b.skip(0) =~= b);
    lemma_shell_state_concat(a + sp + b, sp, 0, e, ew, None, false);
    assert(seq![a].push(b) =~= seq![a, b]);
    assert(shell_state(sp, 1, seq![a, b], ew, None, false) == (seq![a, b], ew, None::<char>, false));
    lemma_shell_state_concat(a + sp + b + sp, c, 0, e, ew, None, false);
    lemma_shell_state_simple(c, 0, seq![a, b], ew);
    assert(ew + c.skip(0) =~= c);
    lemma_shell_from_state(a + sp + b + sp + c, 0, e, ew, None, false);
    assert(seq![a, b].push(c) =~= seq![a, b, c]);
}

proof fn lemma_segments_without_slash(s: Seq<char>, i: int, done: Seq<Seq<char>>, cur: Seq<char>)
    requires
        0 <= i <= s.len(),
        !s.contains('/'),
    ensures
        segments_from(s, i, done, cur) == done.push(cur + s.skip(i)),
    decreases s.len() - i,
{
    if i < s.len() {
        assert(s[i] != '/');
        lemma_segments_without_slash(s, i + 1, done, cur.push(s[i]));
        assert(cur.push(s[i]) + s.skip(i + 1) =~= cur + s.skip(i));
    } else {
        assert(cur + s.skip(i) =~= cur);
    }
}

/// A word without `/` names itself as a command, unless it is `.` or `..`.
proof fn lemma_verb_of_plain_name(w: Seq<char>)
    requires
        w.len() > 0,
        !w.contains('/'),
        w != seq!['.'],
        w != seq!['.', '.'],
    ensures
        verb_of(w) == w,
{
    lemma_segments_without_slash(w, 0, seq![], seq![]);
    assert(w.skip(0) =~= w);
    assert(Seq::<char>::empty() + w.skip(0) =~= w);
    assert(Seq::<Seq<char>>::empty().push(w) =~= seq![w]);
    assert(seq![w].drop_last() =~= Seq::<Seq<char>>::empty());
}

pub open spec fn slashes(k: nat) -> Seq<char> {
    Seq::new(k, |i: int| '/')
}

proof fn lemma_trim_end_slashes(d: Seq<char>, k: nat)
    ensures
        trim_end_slash(d + slashes(k)) == trim_end_slash(d),
    decreases k,
{
    if k > 0 {
        assert((d + slashes(k)).last() == '/');
        assert((d + slashes(k)).drop_last() =~= d + slashes((k - 1) as nat));
        lemma_trim_end_slashes(d, (k - 1) as nat);
    } else {
        assert(d + slashes(0) =~= d);
    }
}

/// `verb -rf path` is read as three shell words: the verb, the flags and the path.
proof fn lemma_deletion_command(verb: Seq<char>, path: Seq<char>)
    requires
        simple_word(verb),
        plain(verb),
        !verb.contains('/'),
        is_delete_verb(verb),
        simple_word(path),
        plain(path),
    ensures
        shell_words_of(stripped(verb + " -rf "@ + path)) == seq![verb, seq!['-', 'r', 'f'], path],
        verb_of(verb) == verb,
        !is_word_sep(seq!['-', 'r', 'f']),
        !is_word_sep(path),
{
    reveal_strlit(" -rf ");
    reveal_strlit("rm");
    reveal_strlit("rmdir");
    reveal_strlit("shred");
    reveal_strlit("unlink");
    reveal_strlit("|");
    reveal_strlit(";");
    reveal_strlit("&");
    let flags = seq!['-', 'r', 'f'];
    let sp = seq![' '];
    let cmd = verb + " -rf "@ + path;
    assert(cmd =~= verb + sp + flags + sp + path);
    assert(simple_word(flags));
    assert(plain(flags) && plain(sp));
    lemma_plain_concat(verb, sp);
    lemma_plain_concat(verb + sp, flags);
    lemma_plain_concat(verb + sp + flags, sp);
    lemma_plain_concat(verb + sp + flags + sp, path);
    stripped_plain(cmd);
    lemma_three_shell_words(verb, flags, path);
    assert(verb != seq!['.'] && verb != seq!['.', '.']) by {
        assert(verb.len() >= 2);
        if verb == seq!['.', '.'] {
            assert(verb[0] == '.');
        }
    }
    lemma_verb_of_plain_name(verb);
    assert(!is_word_sep(flags)) by {
        assert("|"@.len() == 1 && ";"@.len() == 1 && "&"@.len() == 1);
    }
    assert(!is_word_sep(path)) by {
        assert("|"@ =~= seq!['|'] && ";"@ =~= seq![';'] && "&"@ =~= seq!['&']);
        if is_word_sep(path) {
            assert(!is_shell_sep(path[0]));
        }
    }
}

/// `verb -rf path` with a critical or unresolved path is reported as a danger.
proof fn lemma_deletes_critical_target(verb: Seq<char>, path: Seq<char>)
    requires
        simple_word(verb),
        plain(verb),
        !verb.contains('/'),
        is_delete_verb(verb),
        simple_word(path),
        plain(path),
        path[0] != '-',
        is_critical_target_spec(path),
    ensures
        safety_findings(verb + " -rf "@ + path).contains(critical_deletion()),
{
    lemma_deletion_command(verb, path);
    critical_deletions_are_dangers(verb + " -rf "@ + path, 0, 2);
}

proof fn lemma_deletes_named_path(verb: Seq<char>, dir: Seq<char>, k: nat)
    requires
        simple_word(verb),
        plain(verb),
        !verb.contains('/'),
        is_delete_verb(verb),
        simple_word(dir),
        plain(dir),
        dir[0] != '-',
        is_critical_name(trim_end_slash(dir)) || is_account_file(trim_end_slash(dir)),
    ensures
        safety_findings(verb + " -rf "@ + dir + slashes(k)).contains(critical_deletion()),
{
    let path = dir + slashes(k);
    assert(simple_word(path)) by {
        assert forall|j: int| 0 <= j < path.len() implies !is_white_char(#[trigger] path[j])
            && !is_shell_sep(path[j]) && path[j] != '\'' && path[j] != '"' && path[j] != '\\' by {
            if j < dir.len() {
                assert(path[j] == dir[j]);
            } else {
                assert(path[j] == '/');
            }
        }
    }
    assert(plain(slashes(k))) by {
        assert forall|j: int| 0 <= j < slashes(k).len() implies keeps(#[trigger] slashes(k)[j]) by {}
    }
    lemma_plain_concat(dir, slashes(k));
    assert(path[0] == dir[0]);
    lemma_trim_end_slashes(dir, k);
    lemma_deletes_critical_target(verb, path);
    assert(verb + " -rf "@ + path =~= verb + " -rf "@ + dir + slashes(k));
}

/// The commands that delete.
pub open spec fn deletion_verbs() -> Seq<Seq<char>> {
    seq!["rm"@, "rmdir"@, "shred"@, "unlink"@]
}

/// Each deletion command is a plain simple word without `/`.
proof fn lemma_deletion_verb(v: int)
    requires
        0 <= v < deletion_verbs().len(),
    ensures
        simple_word(deletion_verbs()[v]),
        plain(deletion_verbs()[v]),
        !deletion_verbs()[v].contains('/'),
        is_delete_verb(deletion_verbs()[v]),
{
    if v == 0 {
        reveal_strlit("rm");
        assert("rm"@ =~= seq!['r', 'm']);
    } else if v == 1 {
        reveal_strlit("rmdir");
        assert("rmdir"@ =~= seq!['r', 'm', 'd', 'i', 'r']);
    } else if v == 2 {
        reveal_strlit("shred");
        assert("shred"@ =~= seq!['s', 'h', 'r', 'e', 'd']);
    } else if v == 3 {
        reveal_strlit("unlink");
        assert("unlink"@ =~= seq!['u', 'n', 'l', 'i', 'n', 'k']);
    }
    let verb = deletion_verbs()[v];
    assert(simple_word(verb));
    assert(plain(verb));
    assert(!verb.contains('/'));
}

/// The system directories, home references and account files that a deletion
/// must never name.
pub open spec fn protected_paths() -> Seq<Seq<char>> {
    seq![
        "/"@,
        "/bin"@,
        "/boot"@,
        "/dev"@,
        "/etc"@,
        "/home"@,
        "/lib"@,
        "/lib32"@,
        "/lib64"@,
        "/opt"@,
        "/proc"@,
        "/root"@,
        "/run"@,
        "/sbin"@,
        "/srv"@,
        "/sys"@,
        "/usr"@,
        "/var"@,
        "/var/log"@,
        "/var/lib"@,
        "/usr/local"@,
        "$HOME"@,
        "${HOME}"@,
        "~"@,
        "/etc/passwd"@,
        "/etc/shadow"@,
        "/etc/group"@,
        "/etc/sudoers"@,
        "/etc/fstab"@,
    ]
}

/// Deleting a system directory, a home directory reference or an account file
/// is always reported as a danger: `v -rf p` for every deletion command `v` and
/// every protected path `p`, with any number of trailing slashes, has the finding
/// "deletes a critical or unresolved path".
pub proof fn deleting_a_protected_path_is_a_danger(v: int, d: int, k: nat)
    requires
        0 <= v < deletion_verbs().len(),
        0 <= d < protected_paths().len(),
    ensures
        safety_findings(deletion_verbs()[v] + " -rf "@ + protected_paths()[d] + slashes(k)).contains(
            (Severity::Danger, "deletes a critical or unresolved path"@),
        ),
{
    reveal_strlit("");
    assert(""@ =~= Seq::<char>::empty());
    lemma_deletion_verb(v);
    if d == 0 {
        reveal_strlit("/");
        assert("/"@ =~= seq!['/']);
    } else if d == 1 {
        reveal_strlit("/bin");
        assert("/bin"@ =~= seq!['/', 'b', 'i', 'n']);
    } else if d == 2 {
        reveal_strlit("/boot");
        assert("/boot"@ =~= seq!['/', 'b', 'o', 'o', 't']);
    } else if d == 3 {
        reveal_strlit("/dev");
        assert("/dev"@ =~= seq!['/', 'd', 'e', 'v']);
    } else if d == 4 {
        reveal_strlit("/etc");
        assert("/etc"@ =~= seq!['/', 'e', 't', 'c']);
    } else if d == 5 {
        reveal_strlit("/home");
        assert("/home"@ =~= seq!['/', 'h', 'o', 'm', 'e']);
    } else if d == 6 {
        reveal_strlit("/lib");
        assert("/lib"@ =~= seq!['/', 'l', 'i', 'b']);
    } else if d == 7 {
        reveal_strlit("/lib32");
        assert("/lib32"@ =~= seq!['/', 'l', 'i', 'b', '3', '2']);
    } else if d == 8 {
        reveal_strlit("/lib64");
        assert("/lib64"@ =~= seq!['/', 'l', 'i', 'b', '6', '4']);
    } else if d == 9 {
        reveal_strlit("/opt");
        assert("/opt"@ =~= seq!['/', 'o', 'p', 't']);
    } else if d == 10 {
        reveal_strlit("/proc");
        assert("/proc"@ =~= seq!['/', 'p', 'r', 'o', 'c']);
    } else if d == 11 {
        reveal_strlit("/root");
        assert("/root"@ =~= seq!['/', 'r', 'o', 'o', 't']);
    } else if d == 12 {
        reveal_strlit("/run");
        assert("/run"@ =~= seq!['/', 'r', 'u', 'n']);
    } else if d == 13 {
        reveal_strlit("/sbin");
        assert("/sbin"@ =~= seq!['/', 's', 'b', 'i', 'n']);
    } else if d == 14 {
        reveal_strlit("/srv");
        assert("/srv"@ =~= seq!['/', 's', 'r', 'v']);
    } else if d == 15 {
        reveal_strlit("/sys");
        assert("/sys"@ =~= seq!['/', 's', 'y', 's']);
    } else if d == 16 {
        reveal_strlit("/usr");
        assert("/usr"@ =~= seq!['/', 'u', 's', 'r']);
    } else if d == 17 {
        reveal_strlit("/var");
        assert("/var"@ =~= seq!['/', 'v', 'a', 'r']);
    } else if d == 18 {
        reveal_strlit("/var/log");
        assert("/var/log"@ =~= seq!['/', 'v', 'a', 'r', '/', 'l', 'o', 'g']);
    } else if d == 19 {
        reveal_strlit("/var/lib");
        assert("/var/lib"@ =~= seq!['/', 'v', 'a', 'r', '/', 'l', 'i', 'b']);
    } else if d == 20 {
        reveal_strlit("/usr/local");
        assert("/usr/local"@ =~= seq!['/', 'u', 's', 'r', '/', 'l', 'o', 'c', 'a', 'l']);
    } else if d == 21 {
        reveal_strlit("$HOME");
        assert("$HOME"@ =~= seq!['$', 'H', 'O', 'M', 'E']);
    } else if d == 22 {
        reveal_strlit("${HOME}");
        assert("${HOME}"@ =~= seq!['$', '{', 'H', 'O', 'M', 'E', '}']);
    } else if d == 23 {
        reveal_strlit("~");
        assert("~"@ =~= seq!['~']);
    } else if d == 24 {
        reveal_strlit("/etc/passwd");
        assert("/etc/passwd"@ =~= seq!['/', 'e', 't', 'c', '/', 'p', 'a', 's', 's', 'w', 'd']);
    } else if d == 25 {
        reveal_strlit("/etc/shadow");
        assert("/etc/shadow"@ =~= seq!['/', 'e', 't', 'c', '/', 's', 'h', 'a', 'd', 'o', 'w']);
    } else if d == 26 {
        reveal_strlit("/etc/group");
        assert("/etc/group"@ =~= seq!['/', 'e', 't', 'c', '/', 'g', 'r', 'o', 'u', 'p']);
    } else if d == 27 {
        reveal_strlit("/etc/sudoers");
        assert("/etc/sudoers"@ =~= seq!['/', 'e', 't', 'c', '/', 's', 'u', 'd', 'o', 'e', 'r', 's']);
    } else if d == 28 {
        reveal_strlit("/etc/fstab");
        assert("/etc/fstab"@ =~= seq!['/', 'e', 't', 'c', '/', 'f', 's', 't', 'a', 'b']);
    }
    let verb = deletion_verbs()[v];
    let dir = protected_paths()[d];
    assert(dir.len() >= 1);
    assert(simple_word(dir));
    assert(plain(dir));
    assert(seq!['/'].drop_last() =~= Seq::<char>::empty());
    assert(trim_end_slash(seq!['/']) == trim_end_slash(Seq::<char>::empty()));
    lemma_deletes_named_path(verb, dir, k);
}

broadcast proof fn lemma_add_if_has(
    acc: Seq<(Severity, Seq<char>)>,
    cond: bool,
    sev: Severity,
    r: Seq<char>,
)
    requires
        cond,
    ensures
        #[trigger] add_if(acc, cond, sev, r).contains((sev, r)),
{
    lemma_add_unique_has(acc, (sev, r));
}

/// The lowercase command, control sequences removed, with each run of white
/// space made one space and none at either end.
pub open spec fn compacted(command: Seq<char>) -> Seq<char> {
    join(white_words(lower_seq(stripped(command))), " "@)
}

/// What the literal and keyword rules find is reported.
proof fn lemma_keyword_stage_reaches(command: Seq<char>, f: (Severity, Seq<char>))
    requires
        keyword_findings(literal_findings(seq![], compacted(command)), lower_seq(stripped(command))).contains(f),
    ensures
        safety_findings(command).contains(f),
{
    broadcast use lemma_add_if_keeps;

    let clean = stripped(command);
    let lower = lower_seq(clean);
    let b = keyword_findings(literal_findings(seq![], compacted(command)), lower);
    let ws = shell_words_of(clean);
    lemma_deletion_keeps(b, ws, 0, f);
    let c = deletion_findings(b, ws, 0);
    assert(caution_findings(c, clean, lower).contains(f));
}

/// What the literal rules find is reported.
proof fn lemma_literal_stage_reaches(command: Seq<char>, f: (Severity, Seq<char>))
    requires
        literal_findings(seq![], compacted(command)).contains(f),
    ensures
        safety_findings(command).contains(f),
{
    broadcast use lemma_add_if_keeps;

    let a = literal_findings(seq![], compacted(command));
    assert(keyword_findings(a, lower_seq(stripped(command))).contains(f));
    lemma_keyword_stage_reaches(command, f);
}

/// The literal patterns that make a command dangerous, each with its reason.
pub open spec fn danger_literals() -> Seq<(Seq<char>, Seq<char>)> {
    seq![
        ("git reset --hard"@, "git reset --hard discards uncommitted work"@),
        ("git clean -xdf"@, "git clean deletes untracked files irrecoverably"@),
        ("git clean -fdx"@, "git clean deletes untracked files irrecoverably"@),
        ("--no-preserve-root"@, "explicitly overrides rm's root guard"@),
        ("crontab -r"@, "deletes the entire user crontab"@),
        ("nft flush ruleset"@, "flushes firewall rules and can lock you out"@),
        ("history -c"@, "erases shell history"@),
        ("nopasswd"@, "grants passwordless sudo"@),
        (":(){ :|:& };:"@, "fork bomb"@),
        (":() { :|: & }; :"@, "fork bomb"@),
    ]
}

/// A command that holds one of the dangerous literal patterns, in any ASCII
/// case and with any white space between its words, is reported as a danger
/// with that pattern's reason.
pub proof fn dangerous_literals_are_reported(command: Seq<char>, k: int)
    requires
        0 <= k < danger_literals().len(),
        contains_seq(compacted(command), danger_literals()[k].0),
    ensures
        safety_findings(command).contains((Severity::Danger, danger_literals()[k].1)),
{
    broadcast use lemma_add_if_keeps, lemma_add_if_has;

    let f = (Severity::Danger, danger_literals()[k].1);
    assert(literal_findings(seq![], compacted(command)).contains(f));
    lemma_literal_stage_reaches(command, f);
}

/// The words that shut the machine down.
pub open spec fn power_words() -> Seq<Seq<char>> {
    seq!["shutdown"@, "reboot"@, "poweroff"@, "halt"@]
}

/// A command with `shutdown`, `reboot`, `poweroff` or `halt` as one of its
/// shell words, in any ASCII case, is reported as a danger.
pub proof fn shutdowns_are_reported(command: Seq<char>, k: int)
    requires
        0 <= k < power_words().len(),
        shell_words_of(lower_seq(stripped(command))).contains(power_words()[k]),
    ensures
        safety_findings(command).contains((Severity::Danger, "shuts the machine down"@)),
{
    broadcast use lemma_add_if_keeps, lemma_add_if_has;

    let lower = lower_seq(stripped(command));
    let words = shell_words_of(lower);
    let j = choose|j: int| 0 <= j < words.len() && words[j] == power_words()[k];
    assert(is_power_word(words[j]));
    assert(keyword_findings(literal_findings(seq![], compacted(command)), lower).contains(
        (Severity::Danger, "shuts the machine down"@),
    ));
    lemma_keyword_stage_reaches(command, (Severity::Danger, "shuts the machine down"@));
}

/// The tools that wipe or reformat a device.
pub open spec fn disk_wipers() -> Seq<Seq<char>> {
    seq!["mkfs"@, "wipefs"@, "blkdiscard"@, "luksformat"@, "--zap-all"@]
}

/// A command that names a disk-wiping tool and a path under `/dev/`, in any
/// ASCII case, is reported as a danger.
pub proof fn disk_wipes_are_reported(command: Seq<char>, k: int)
    requires
        0 <= k < disk_wipers().len(),
        contains_seq(lower_seq(stripped(command)), disk_wipers()[k]),
        contains_seq(lower_seq(stripped(command)), "/dev/"@),
    ensures
        safety_findings(command).contains((Severity::Danger, "wipes or reformats a block device"@)),
{
    broadcast use lemma_add_if_keeps, lemma_add_if_has;

    let lower = lower_seq(stripped(command));
    assert(names_disk_wiper(lower));
    assert(keyword_findings(literal_findings(seq![], compacted(command)), lower).contains(
        (Severity::Danger, "wipes or reformats a block device"@),
    ));
    lemma_keyword_stage_reaches(command, (Severity::Danger, "wipes or reformats a block device"@));
}

/// The shells whose mention beside `/dev/tcp/` marks a reverse shell.
pub open spec fn shell_names() -> Seq<Seq<char>> {
    seq!["bash"@, "sh "@, "zsh"@]
}

/// A command that names `/dev/tcp/` and a shell, in any ASCII case, is
/// reported as a possible reverse shell.
pub proof fn reverse_shells_are_reported(command: Seq<char>, k: int)
    requires
        0 <= k < shell_names().len(),
        contains_seq(lower_seq(stripped(command)), shell_names()[k]),
        contains_seq(lower_seq(stripped(command)), "/dev/tcp/"@),
    ensures
        safety_findings(command).contains((Severity::Danger, "possible reverse shell"@)),
{
    broadcast use lemma_add_if_keeps, lemma_add_if_has;

    let lower = lower_seq(stripped(command));
    assert(names_shell(lower));
    assert(keyword_findings(literal_findings(seq![], compacted(command)), lower).contains(
        (Severity::Danger, "possible reverse shell"@),
    ));
    lemma_keyword_stage_reaches(command, (Severity::Danger, "possible reverse shell"@));
}

/// A command with `dd ` and an output file under `/dev/`, in any ASCII case,
/// is reported as overwriting a block device.
pub proof fn device_overwrites_are_reported(command: Seq<char>)
    requires
        contains_seq(lower_seq(stripped(command)), "dd "@),
        contains_seq(lower_seq(stripped(command)), "of=/dev/"@),
    ensures
        safety_findings(command).contains((Severity::Danger, "overwrites a block device"@)),
{
    broadcast use lemma_add_if_keeps, lemma_add_if_has;

    let lower = lower_seq(stripped(command));
    assert(keyword_findings(literal_findings(seq![], compacted(command)), lower).contains(
        (Severity::Danger, "overwrites a block device"@),
    ));
    lemma_keyword_stage_reaches(command, (Severity::Danger, "overwrites a block device"@));
}

/// The redirections into `/etc/`.
pub open spec fn etc_redirections() -> Seq<Seq<char>> {
    seq!["> /etc/"@, ">|/etc/"@]
}

/// A command that redirects output into `/etc/` is reported as overwriting a
/// critical system file.
pub proof fn system_file_overwrites_are_reported(command: Seq<char>, k: int)
    requires
        0 <= k < etc_redirections().len(),
        contains_seq(lower_seq(stripped(command)), etc_redirections()[k]),
    ensures
        safety_findings(command).contains((Severity::Danger, "overwrites a critical system file"@)),
{
    broadcast use lemma_add_if_keeps, lemma_add_if_has;

    let lower = lower_seq(stripped(command));
    assert(keyword_findings(literal_findings(seq![], compacted(command)), lower).contains(
        (Severity::Danger, "overwrites a critical system file"@),
    ));
    lemma_keyword_stage_reaches(command, (Severity::Danger, "overwrites a critical system file"@));
}

/// What the caution rules find, after all else, is reported.
proof fn lemma_caution_stage_reaches(command: Seq<char>, f: (Severity, Seq<char>))
    requires
        forall|acc: Seq<(Severity, Seq<char>)>|
            #[trigger] caution_findings(acc, stripped(command), lower_seq(stripped(command))).contains(f),
    ensures
        safety_findings(command).contains(f),
{
    let clean = stripped(command);
    let lower = lower_seq(clean);
    let b = keyword_findings(literal_findings(seq![], compacted(command)), lower);
    let c = deletion_findings(b, shell_words_of(clean), 0);
    assert(caution_findings(c, clean, lower).contains(f));
}

/// The commands that reach the network.
pub open spec fn fetchers() -> Seq<Seq<char>> {
    seq!["curl "@, "wget "@]
}

/// Cautions: `sudo ` in any ASCII case is reported as needing sudo; `curl `
/// or `wget ` as contacting the network; `rsync ` with `--delete` as removing
/// unmatched files; a `<` with a `>` as a placeholder still to be replaced.
pub proof fn cautions_are_reported(command: Seq<char>, k: int)
    requires
        0 <= k < fetchers().len(),
    ensures
        contains_seq(lower_seq(stripped(command)), "sudo "@) ==> safety_findings(command).contains(
            (Severity::Caution, "requires sudo"@),
        ),
        contains_seq(lower_seq(stripped(command)), fetchers()[k]) ==> safety_findings(
            command,
        ).contains((Severity::Caution, "contacts the network"@)),
        contains_seq(lower_seq(stripped(command)), "rsync "@) && contains_seq(
            lower_seq(stripped(command)),
            "--delete"@,
        ) ==> safety_findings(command).contains(
            (Severity::Caution, "rsync --delete removes unmatched destination files"@),
        ),
        stripped(command).contains('<') && stripped(command).contains('>') ==> safety_findings(
            command,
        ).contains((Severity::Caution, "contains a placeholder that must be replaced"@)),
{
    broadcast use lemma_add_if_keeps, lemma_add_if_has;

    let clean = stripped(command);
    let lower = lower_seq(clean);
    if contains_seq(lower, "sudo "@) {
        lemma_caution_stage_reaches(command, (Severity::Caution, "requires sudo"@));
    }
    if contains_seq(lower, fetchers()[k]) {
        assert(fetches(lower));
        lemma_caution_stage_reaches(command, (Severity::Caution, "contacts the network"@));
    }
    if contains_seq(lower, "rsync "@) && contains_seq(lower, "--delete"@) {
        lemma_caution_stage_reaches(
            command,
            (Severity::Caution, "rsync --delete removes unmatched destination files"@),
        );
    }
    if clean.contains('<') && clean.contains('>') {
        lemma_caution_stage_reaches(
            command,
            (Severity::Caution, "contains a placeholder that must be replaced"@),
        );
    }
}

/// Deleting a path whose meaning the shell decides is always reported as a
/// danger: `v -rf t` for every deletion command `v` and every simple word `t`,
/// not taken for a flag, that is a variable (`$…`), holds a glob or ends in
/// `/.` under the root, or climbs out of the home directory (`$HOME/..`,
/// `~/..`).
pub proof fn deleting_an_unresolved_path_is_a_danger(v: int, t: Seq<char>)
    requires
        0 <= v < deletion_verbs().len(),
        simple_word(t),
        plain(t),
        t[0] != '-',
        t[0] == '$' || (t[0] == '/' && (t.contains('*') || ends_with(t, seq!['/', '.'])))
            || contains_seq(t, "$HOME/.."@) || contains_seq(t, "~/.."@),
    ensures
        safety_findings(deletion_verbs()[v] + " -rf "@ + t).contains(critical_deletion()),
{
    reveal_strlit("$");
    reveal_strlit("/");
    reveal_strlit("/.");
    lemma_deletion_verb(v);
    if t[0] == '$' {
        assert(t.subrange(0, 1) =~= "$"@);
    }
    if t[0] == '/' {
        assert(t.subrange(0, 1) =~= "/"@);
    }
    assert("/."@ =~= seq!['/', '.']);
    assert(is_critical_target_spec(t));
    lemma_deletes_critical_target(deletion_verbs()[v], t);
}

/// Deleting a user's home directory is always reported as a danger: `v -rf
/// /home/u` for every deletion command `v` and every simple name `u` without
/// `/`, with any number of trailing slashes.
pub proof fn deleting_a_home_directory_is_a_danger(v: int, u: Seq<char>, k: nat)
    requires
        0 <= v < deletion_verbs().len(),
        simple_word(u),
        plain(u),
        !u.contains('/'),
    ensures
        safety_findings(deletion_verbs()[v] + " -rf "@ + ("/home/"@ + u + slashes(k))).contains(
            critical_deletion(),
        ),
{
    reveal_strlit("/home/");
    lemma_deletion_verb(v);
    let dir = "/home/"@ + u;
    let path = dir + slashes(k);
    assert(simple_word(path)) by {
        assert forall|j: int| 0 <= j < path.len() implies !is_white_char(#[trigger] path[j])
            && !is_shell_sep(path[j]) && path[j] != '\'' && path[j] != '"' && path[j] != '\\' by {
            if j < 6 {
                assert(path[j] == "/home/"@[j]);
            } else if j < dir.len() {
                assert(path[j] == u[j - 6]);
            } else {
                assert(path[j] == '/');
            }
        }
    }
    assert(plain(path)) by {
        assert forall|j: int| 0 <= j < path.len() implies keeps(#[trigger] path[j]) by {
            if j < 6 {
                assert(path[j] == "/home/"@[j]);
            } else if j < dir.len() {
                assert(path[j] == u[j - 6]);
            } else {
                assert(path[j] == '/');
            }
        }
    }
    lemma_trim_end_slashes(dir, k);
    assert(dir.last() == u.last());
    assert(trim_end_slash(dir) == dir);
    assert(starts_with(dir, "/home/"@)) by {
        assert(dir.subrange(0, 6) =~= "/home/"@);
    }
    assert(dir.skip(6) =~= u);
    assert(is_critical_target_spec(path));
    assert(path[0] == '/');
    lemma_deletes_critical_target(deletion_verbs()[v], path);
}

/// The targets that delete everything in the current directory.
pub open spec fn unscoped_targets() -> Seq<Seq<char>> {
    seq!["*"@, "."@, "./*"@]
}

/// A forced recursive deletion of everything in the current directory is
/// always reported as a danger: `v -rf t` for every deletion command `v` and
/// every target `t` of `*`, `.` and `./*`.
pub proof fn unscoped_deletions_are_dangers(v: int, t: int)
    requires
        0 <= v < deletion_verbs().len(),
        0 <= t < unscoped_targets().len(),
    ensures
        safety_findings(deletion_verbs()[v] + " -rf "@ + unscoped_targets()[t]).contains(
            (Severity::Danger, "unscoped recursive deletion"@),
        ),
{
    reveal_strlit("");
    reveal_strlit("/");
    reveal_strlit("/bin");
    reveal_strlit("/boot");
    reveal_strlit("/dev");
    reveal_strlit("/etc");
    reveal_strlit("/home");
    reveal_strlit("/lib");
    reveal_strlit("/lib32");
    reveal_strlit("/lib64");
    reveal_strlit("/opt");
    reveal_strlit("/proc");
    reveal_strlit("/root");
    reveal_strlit("/run");
    reveal_strlit("/sbin");
    reveal_strlit("/srv");
    reveal_strlit("/sys");
    reveal_strlit("/usr");
    reveal_strlit("/var");
    reveal_strlit("/var/log");
    reveal_strlit("/var/lib");
    reveal_strlit("/usr/local");
    reveal_strlit("$HOME");
    reveal_strlit("${HOME}");
    reveal_strlit("~");
    reveal_strlit("/etc/passwd");
    reveal_strlit("/etc/shadow");
    reveal_strlit("/etc/group");
    reveal_strlit("/etc/sudoers");
    reveal_strlit("/etc/fstab");
    reveal_strlit("$HOME/..");
    reveal_strlit("~/..");
    reveal_strlit("/home/");
    reveal_strlit("$");
    reveal_strlit("/.");
    reveal_strlit("*");
    reveal_strlit(".");
    reveal_strlit("./*");
    lemma_deletion_verb(v);
    let verb = deletion_verbs()[v];
    let path = unscoped_targets()[t];
    let flags = seq!['-', 'r', 'f'];
    assert(simple_word(path));
    assert(plain(path));
    assert(trim_end_slash(path) == path);
    assert(!contains_seq(path, "$HOME/.."@)) by {
        if contains_seq(path, "$HOME/.."@) {
            let i = choose|i: int| occurs_at(path, "$HOME/.."@, i);
        }
    }
    assert(!contains_seq(path, "~/.."@)) by {
        if contains_seq(path, "~/.."@) {
            let i = choose|i: int| occurs_at(path, "~/.."@, i);
        }
    }
    assert(!is_critical_name(path));
    assert(!is_account_file(path));
    assert(!starts_with(path, "/home/"@));
    assert(!starts_with(path, "/"@)) by {
        if starts_with(path, "/"@) {
            assert(path.subrange(0, 1)[0] == path[0]);
        }
    }
    assert(!starts_with(path, "$"@)) by {
        if starts_with(path, "$"@) {
            assert(path.subrange(0, 1)[0] == path[0]);
        }
    }
    assert(!is_critical_target_spec(path));
    assert(is_unscoped(path));
    lemma_deletion_command(verb, path);
    let cmd = verb + " -rf "@ + path;
    let clean = stripped(cmd);
    let lower = lower_seq(clean);
    let ws = shell_words_of(clean);
    let b = keyword_findings(literal_findings(seq![], compacted(cmd)), lower);
    let f = (Severity::Danger, "unscoped recursive deletion"@);
    assert(flags.contains('r') && flags.contains('f')) by {
        assert(flags[1] == 'r' && flags[2] == 'f');
    }
    assert(target_findings(b, ws, 3, true, true) == b);
    assert(target_findings(b, ws, 2, true, true) == target_findings(add_unique(b, f), ws, 3, true, true));
    let next = target_findings(b, ws, 1, false, false);
    assert(next == add_unique(b, f));
    lemma_add_unique_has(b, f);
    lemma_deletion_keeps(next, ws, 1, f);
    assert(deletion_findings(b, ws, 0) == deletion_findings(next, ws, 1));
    assert(caution_findings(deletion_findings(b, ws, 0), clean, lower).contains(f)) by {
        broadcast use lemma_add_if_keeps;
    }
}

/// The interpreters that piped remote content must not reach.
pub open spec fn interpreters() -> Seq<Seq<char>> {
    seq![" sh"@, " bash"@, " zsh"@, " python"@, " perl"@, " ruby"@, " node"@]
}

/// A command that downloads with `curl ` or `wget `, pipes, and names any of
/// the interpreters, in any ASCII case, is reported as a danger.
pub proof fn downloads_piped_to_an_interpreter_are_dangers(command: Seq<char>, j: int, k: int)
    requires
        0 <= j < fetchers().len(),
        0 <= k < interpreters().len(),
        contains_seq(lower_seq(stripped(command)), fetchers()[j]),
        lower_seq(stripped(command)).contains('|'),
        contains_seq(lower_seq(stripped(command)), interpreters()[k]),
    ensures
        safety_findings(command).contains(piped_download()),
{
    let lower = lower_seq(stripped(command));
    assert(fetches(lower));
    assert(names_interpreter(lower));
    piped_downloads_are_dangers(command);
}

} // verus!
