//! Recovering the one command line from llama-cli's output.

use vstd::prelude::*;
use crate::controls::{keeps, lemma_plain_concat, plain, strip_chars, stripped, stripped_plain};
use crate::text::{
    append_chars, chars_of, copy_range, find, find_at, is_white_char, join, join_range,
    lemma_find_from_some, lemma_lines_after_newline, lemma_lines_from_state, lemma_lines_lack_newline,
    lemma_lines_state_concat, lemma_lines_state_first_prefix, lemma_lines_state_no_cr,
    lemma_lines_state_no_newline, lemma_subrange_lacks, lemma_trim_range, lemma_trim_white_tail,
    all_white, contains_seq, lemma_find_absent, lemma_find_after_white, lemma_find_least,
    lemma_trim_end_all_white, lemma_trim_end_concat, lemma_trim_start_split, lemma_trim_white_head,
    occurs_at, trim_end, trim_start, drop_cr, lines_state, lines, lower_seq, lowercase, split_lines, split_white, starts,
    starts_lit, starts_with, string_of, trim, trim_chars, views, white_words, is_prefix,
    lemma_contains_prefix, lemma_trim_end_range, lower_char,
};

verus! {

pub open spec fn cr_to_lf(s: Seq<char>) -> Seq<char> {
    s.map_values(|c: char| if c == '\r' { '\n' } else { c })
}

fn carriage_returns_to_newlines(s: &[char]) -> (r: Vec<char>)
    ensures
        r@ == cr_to_lf(s@),
{
    let mut r: Vec<char> = Vec::new();
    let mut i: usize = 0;
    while i < s.len()
        invariant
            i <= s.len(),
            r@ =~= cr_to_lf(s@.take(i as int)),
        decreases s.len() - i,
    {
        r.push(if s[i] == '\r' { '\n' } else { s[i] });
        i += 1;
    }
    assert(s@.take(s.len() as int) =~= s@);
    r
}

/// One past the last of `ls[..k]` that echoes the prompt (starts with `"> "`), or 0.
pub open spec fn after_prompt(ls: Seq<Seq<char>>, k: int) -> int
    decreases k,
{
    if k <= 0 || k > ls.len() {
        0
    } else if starts_with(ls[k - 1], "> "@) {
        k
    } else {
        after_prompt(ls, k - 1)
    }
}

pub open spec fn is_footer(l: Seq<char>) -> bool {
    starts_with(l, "[ Prompt:"@) || starts_with(l, "Exiting..."@)
}

/// The first index at or after `i` of a footer line, or the number of lines.
pub open spec fn footer_from(ls: Seq<Seq<char>>, i: int) -> int
    decreases ls.len() - i,
{
    if i < 0 || i >= ls.len() {
        if i < 0 {
            0
        } else {
            i
        }
    } else if is_footer(ls[i]) {
        i
    } else {
        footer_from(ls, i + 1)
    }
}

/// The model's answer in llama-cli output: the lines after the last prompt echo
/// and before the performance footer, joined and trimmed.
pub open spec fn cli_answer(s: Seq<char>) -> Seq<char> {
    let ls = lines(stripped(cr_to_lf(s)));
    let start = after_prompt(ls, ls.len() as int);
    trim(join(ls.subrange(start, footer_from(ls, start)), "\n"@))
}

/// Remove llama-cli's prompt echo and performance footer.
pub fn strip_cli_chrome(input: &str) -> (r: String)
    ensures
        r@ == cli_answer(input@),
{
    let s = chars_of(input);
    let unified = carriage_returns_to_newlines(s.as_slice());
    let clean = strip_chars(unified.as_slice());
    let ls = split_lines(clean.as_slice());
    let ghost lv = views(ls@);
    let mut k: usize = ls.len();
    while k > 0 && !starts_lit(ls[k - 1].as_slice(), "> ")
        invariant
            k <= ls.len(),
            lv == views(ls@),
            after_prompt(lv, lv.len() as int) == after_prompt(lv, k as int),
        decreases k,
    {
        assert(ls@[k - 1]@ == lv[k - 1]);
        k -= 1;
    }
    if k > 0 {
        assert(ls@[k - 1]@ == lv[k - 1]);
    }
    let start = k;
    let mut e: usize = start;
    while e < ls.len() && !(starts_lit(ls[e].as_slice(), "[ Prompt:") || starts_lit(
        ls[e].as_slice(),
        "Exiting...",
    ))
        invariant
            start <= e <= ls.len(),
            lv == views(ls@),
            footer_from(lv, start as int) == footer_from(lv, e as int),
        decreases ls.len() - e,
    {
        assert(ls@[e as int]@ == lv[e as int]);
        e += 1;
    }
    if e < ls.len() {
        assert(ls@[e as int]@ == lv[e as int]);
    }
    let nl = chars_of("\n");
    let joined = join_range(ls.as_slice(), start, e, nl.as_slice());
    assert(views(ls@.subrange(start as int, e as int)) =~= lv.subrange(start as int, e as int));
    let t = trim_chars(joined.as_slice());
    string_of(t.as_slice())
}


/// `t` with every `<think>…</think>` block removed, and everything from an
/// unclosed `<think>` on.
pub open spec fn without_think(t: Seq<char>) -> Seq<char>
    decreases t.len(),
{
    match find(t, "<think>"@) {
        None => t,
        Some(st) => {
            let rest = t.skip(st + "<think>"@.len());
            match find(rest, "</think>"@) {
                Some(rel) => {
                    proof {
                        reveal_strlit("<think>");
                        lemma_find_from_some(t, "<think>"@, 0);
                        lemma_find_from_some(rest, "</think>"@, 0);
                    }
                    without_think(t.take(st) + rest.skip(rel + "</think>"@.len()))
                },
                None => t.take(st),
            }
        },
    }
}

fn remove_think_blocks(text: Vec<char>) -> (r: Vec<char>)
    ensures
        r@ == without_think(text@),
{
    let open = chars_of("<think>");
    let close = chars_of("</think>");
    let mut t = text;
    loop
        invariant
            open@ == "<think>"@,
            close@ == "</think>"@,
            without_think(t@) == without_think(text@),
        decreases t.len(),
    {
        match find_at(t.as_slice(), open.as_slice(), 0) {
            None => {
                return t;
            },
            Some(st) => {
                proof {
                    reveal_strlit("<think>");
                    lemma_find_from_some(t@, open@, 0);
                }
                let rest = copy_range(t.as_slice(), st + open.len(), t.len());
                assert(rest@ =~= t@.skip(st + open@.len()));
                match find_at(rest.as_slice(), close.as_slice(), 0) {
                    None => {
                        return copy_range(t.as_slice(), 0, st);
                    },
                    Some(rel) => {
                        proof {
                            lemma_find_from_some(rest@, close@, 0);
                        }
                        let mut next = copy_range(t.as_slice(), 0, st);
                        let tail = copy_range(rest.as_slice(), rel + close.len(), rest.len());
                        append_chars(&mut next, tail.as_slice());
                        assert(t@.subrange(0, st as int) =~= t@.take(st as int));
                        assert(tail@ =~= rest@.skip(rel + close@.len()));
                        t = next;
                    },
                }
            },
        }
    }
}

pub open spec fn is_fence_space(c: char) -> bool {
    c == ' ' || c == '\t' || c == '\n'
}

pub open spec fn trim_fence_space(s: Seq<char>) -> Seq<char>
    decreases s.len(),
{
    if s.len() > 0 && is_fence_space(s[0]) {
        trim_fence_space(s.drop_first())
    } else {
        s
    }
}

/// The contents of the first Markdown code fence of `t`, the fence's `bash`
/// or `sh` tag removed, trimmed; `t` itself when it has no fence.
pub open spec fn fence_body(t: Seq<char>) -> Seq<char> {
    match find(t, "```"@) {
        None => t,
        Some(st) => {
            let after = t.skip(st + "```"@.len());
            let untagged = if starts_with(after, "bash"@) {
                after.skip("bash"@.len() as int)
            } else if starts_with(after, "sh"@) {
                after.skip("sh"@.len() as int)
            } else {
                after
            };
            let body = trim_fence_space(untagged);
            let piece = match find(body, "```"@) {
                Some(e) => body.take(e),
                None => body,
            };
            trim(piece)
        },
    }
}

fn fenced_body(t: Vec<char>) -> (r: Vec<char>)
    ensures
        r@ == fence_body(t@),
{
    let fence = chars_of("```");
    match find_at(t.as_slice(), fence.as_slice(), 0) {
        None => t,
        Some(st) => {
            proof {
                lemma_find_from_some(t@, fence@, 0);
                assert(crate::text::occurs_at(t@, fence@, st as int));
            }
            let n = fence.len();
            let tl = t.len();
            assert(st + n <= tl);
            let after = copy_range(t.as_slice(), st + n, tl);
            assert(after@ =~= t@.skip(st + "```"@.len()));
            let bash = chars_of("bash");
            let sh = chars_of("sh");
            let untagged = if starts(after.as_slice(), bash.as_slice()) {
                let u = copy_range(after.as_slice(), bash.len(), after.len());
                assert(u@ =~= after@.skip(bash@.len() as int));
                u
            } else if starts(after.as_slice(), sh.as_slice()) {
                let u = copy_range(after.as_slice(), sh.len(), after.len());
                assert(u@ =~= after@.skip(sh@.len() as int));
                u
            } else {
                after
            };
            let mut lo: usize = 0;
            assert(untagged@.skip(0) =~= untagged@);
            while lo < untagged.len() && (untagged[lo] == ' ' || untagged[lo] == '\t'
                || untagged[lo] == '\n')
                invariant
                    lo <= untagged.len(),
                    trim_fence_space(untagged@) == trim_fence_space(untagged@.skip(lo as int)),
                decreases untagged.len() - lo,
            {
                assert(untagged@.skip(lo as int).drop_first() =~= untagged@.skip(lo + 1));
                lo += 1;
            }
            let body = copy_range(untagged.as_slice(), lo, untagged.len());
            assert(body@ =~= untagged@.skip(lo as int));
            let piece = match find_at(body.as_slice(), fence.as_slice(), 0) {
                Some(e) => {
                    proof {
                        lemma_find_from_some(body@, fence@, 0);
                    }
                    let p = copy_range(body.as_slice(), 0, e);
                    assert(p@ =~= body@.take(e as int));
                    p
                },
                None => body,
            };
            trim_chars(piece.as_slice())
        },
    }
}

/// `t` without a leading conversational lead-in such as `Sure:`, compared
/// without regard to ASCII case; only the first lead-in that matches is removed.
pub open spec fn without_lead_in(t: Seq<char>) -> Seq<char> {
    let lower = lower_seq(t);
    if starts_with(lower, "sure:"@) {
        trim(t.skip("sure:"@.len() as int))
    } else if starts_with(lower, "certainly:"@) {
        trim(t.skip("certainly:"@.len() as int))
    } else if starts_with(lower, "here's the command:"@) {
        trim(t.skip("here's the command:"@.len() as int))
    } else if starts_with(lower, "here is the command:"@) {
        trim(t.skip("here is the command:"@.len() as int))
    } else if starts_with(lower, "the command is:"@) {
        trim(t.skip("the command is:"@.len() as int))
    } else if starts_with(lower, "command:"@) {
        trim(t.skip("command:"@.len() as int))
    } else if starts_with(lower, "answer:"@) {
        trim(t.skip("answer:"@.len() as int))
    } else {
        t
    }
}

fn after_prefix(t: &[char], n: usize) -> (r: Vec<char>)
    requires
        n <= t.len(),
    ensures
        r@ == trim(t@.skip(n as int)),
{
    let rest = copy_range(t, n, t.len());
    assert(rest@ =~= t@.skip(n as int));
    trim_chars(rest.as_slice())
}

fn strip_lead_in(t: Vec<char>) -> (r: Vec<char>)
    ensures
        r@ == without_lead_in(t@),
{
    let lower = lowercase(t.as_slice());
    let l = lower.as_slice();
    assert(lower@.len() == t@.len());
    let p1 = chars_of("sure:");
    let p2 = chars_of("certainly:");
    let p3 = chars_of("here's the command:");
    let p4 = chars_of("here is the command:");
    let p5 = chars_of("the command is:");
    let p6 = chars_of("command:");
    let p7 = chars_of("answer:");
    if starts(l, p1.as_slice()) {
        after_prefix(t.as_slice(), p1.len())
    } else if starts(l, p2.as_slice()) {
        after_prefix(t.as_slice(), p2.len())
    } else if starts(l, p3.as_slice()) {
        after_prefix(t.as_slice(), p3.len())
    } else if starts(l, p4.as_slice()) {
        after_prefix(t.as_slice(), p4.len())
    } else if starts(l, p5.as_slice()) {
        after_prefix(t.as_slice(), p5.len())
    } else if starts(l, p6.as_slice()) {
        after_prefix(t.as_slice(), p6.len())
    } else if starts(l, p7.as_slice()) {
        after_prefix(t.as_slice(), p7.len())
    } else {
        t
    }
}

/// The command a line holds, if any: the line trimmed, with a `$ `, `> ` or
/// `# ` prompt and one pair of enclosing backquotes removed; blank lines and
/// comment lines hold none.
pub open spec fn line_command(l: Seq<char>) -> Option<Seq<char>> {
    let a = trim(l);
    if a.len() == 0 || a[0] == '#' {
        None
    } else {
        let b = if (starts_with(a, "$ "@) || starts_with(a, "> "@) || starts_with(a, "# "@))
            && a.len() > 2 {
            trim(a.skip(2))
        } else {
            a
        };
        let c = if b.len() > 1 && b[0] == '`' && b.last() == '`' {
            trim(b.subrange(1, b.len() - 1))
        } else {
            b
        };
        if c.len() > 0 {
            Some(c)
        } else {
            None
        }
    }
}

/// The command held by the first of `ls[i..]` that holds one, or the empty text.
pub open spec fn first_command(ls: Seq<Seq<char>>, i: int) -> Seq<char>
    decreases ls.len() - i,
{
    if i < 0 || i >= ls.len() {
        seq![]
    } else {
        match line_command(ls[i]) {
            Some(c) => c,
            None => first_command(ls, i + 1),
        }
    }
}

/// The command line in a model's response.
pub open spec fn extracted(raw: Seq<char>) -> Seq<char> {
    let t = trim(without_think(trim(stripped(raw))));
    first_command(lines(without_lead_in(fence_body(t))), 0)
}

fn command_of_line(l: &[char]) -> (r: Option<Vec<char>>)
    ensures
        match r {
            Some(c) => line_command(l@) == Some(c@),
            None => line_command(l@) is None,
        },
{
    let a = trim_chars(l);
    if a.len() == 0 || a[0] == '#' {
        return None;
    }
    let b = if (starts_lit(a.as_slice(), "$ ") || starts_lit(a.as_slice(), "> ") || starts_lit(
        a.as_slice(),
        "# ",
    )) && a.len() > 2 {
        let rest = copy_range(a.as_slice(), 2, a.len());
        assert(rest@ =~= a@.skip(2));
        trim_chars(rest.as_slice())
    } else {
        a
    };
    let c = if b.len() > 1 && b[0] == '`' && b[b.len() - 1] == '`' {
        let inner = copy_range(b.as_slice(), 1, b.len() - 1);
        trim_chars(inner.as_slice())
    } else {
        b
    };
    if c.len() > 0 {
        Some(c)
    } else {
        None
    }
}

/// Turn the model's occasionally decorated response into one command line.
pub fn extract_command(raw: &str) -> (r: String)
    ensures
        r@ == extracted(raw@),
{
    let s = chars_of(raw);
    let clean = strip_chars(s.as_slice());
    let t0 = trim_chars(clean.as_slice());
    let t1 = remove_think_blocks(t0);
    let t2 = trim_chars(t1.as_slice());
    let t3 = fenced_body(t2);
    let t4 = strip_lead_in(t3);
    let ls = split_lines(t4.as_slice());
    let ghost lv = views(ls@);
    let mut i: usize = 0;
    while i < ls.len()
        invariant
            i <= ls.len(),
            lv == views(ls@),
            extracted(raw@) == first_command(lv, i as int),
        decreases ls.len() - i,
    {
        assert(ls@[i as int]@ == lv[i as int]);
        match command_of_line(ls[i].as_slice()) {
            Some(c) => {
                assert(line_command(lv[i as int]) == Some(c@));
                assert(first_command(lv, i as int) == c@);
                return string_of(c.as_slice());
            },
            None => {},
        }
        i += 1;
    }
    String::new()
}


/// How many of `ts[i..]` equal `t`.
pub open spec fn count_from(ts: Seq<Seq<char>>, t: Seq<char>, i: int) -> nat
    decreases ts.len() - i,
{
    if i < 0 || i >= ts.len() {
        0
    } else {
        (if ts[i] == t {
            1nat
        } else {
            0nat
        }) + count_from(ts, t, i + 1)
    }
}

pub open spec fn is_flag(t: Seq<char>) -> bool {
    t.len() > 0 && t[0] == '-'
}

/// A command of at least eight words in which some flag occurs four times or more:
/// the mark of a model caught in a repetition loop.
pub open spec fn degenerate(command: Seq<char>) -> bool {
    let ts = white_words(command);
    ts.len() >= 8 && exists|i: int|
        0 <= i < ts.len() && is_flag(#[trigger] ts[i]) && count_from(ts, ts[i], 0) >= 4
}

proof fn lemma_count_mono(ts: Seq<Seq<char>>, t: Seq<char>, j: int, k: int)
    requires
        0 <= j <= k,
    ensures
        count_from(ts, t, j) >= count_from(ts, t, k),
    decreases k - j,
{
    if j < k {
        lemma_count_mono(ts, t, j + 1, k);
    }
}

proof fn lemma_count_at(ts: Seq<Seq<char>>, t: Seq<char>, j: int, i: int)
    requires
        0 <= j <= i < ts.len(),
        ts[i] == t,
    ensures
        count_from(ts, t, j) >= 1 + count_from(ts, t, i + 1),
{
    lemma_count_mono(ts, t, j, i);
}

proof fn lemma_count_of_four(ts: Seq<Seq<char>>, i1: int, i2: int, i3: int, i4: int)
    requires
        0 <= i1 < i2 < i3 < i4 < ts.len(),
        ts[i2] == ts[i1],
        ts[i3] == ts[i1],
        ts[i4] == ts[i1],
    ensures
        count_from(ts, ts[i1], 0) >= 4,
{
    let t = ts[i1];
    lemma_count_at(ts, t, 0, i1);
    lemma_count_at(ts, t, i1 + 1, i2);
    lemma_count_at(ts, t, i2 + 1, i3);
    lemma_count_at(ts, t, i3 + 1, i4);
}

proof fn lemma_four_of_count(ts: Seq<Seq<char>>, t: Seq<char>, j: int, n: nat) -> (idx: Seq<int>)
    requires
        0 <= j,
        count_from(ts, t, j) >= n,
    ensures
        idx.len() == n,
        forall|a: int| 0 <= a < n ==> j <= #[trigger] idx[a] < ts.len() && ts[idx[a]] == t,
        forall|a: int, b: int| 0 <= a < b < n ==> idx[a] < idx[b],
    decreases ts.len() - j,
{
    if n == 0 {
        Seq::empty()
    } else {
        if ts[j] == t {
            let rest = lemma_four_of_count(ts, t, j + 1, (n - 1) as nat);
            let idx = seq![j] + rest;
            assert forall|a: int| 0 <= a < n implies j <= #[trigger] idx[a] < ts.len() && ts[idx[a]]
                == t by {
                if a > 0 {
                    assert(idx[a] == rest[a - 1]);
                }
            }
            assert forall|a: int, b: int| 0 <= a < b < n implies idx[a] < idx[b] by {
                assert(idx[b] == rest[b - 1]);
                if a > 0 {
                    assert(idx[a] == rest[a - 1]);
                }
            }
            idx
        } else {
            lemma_four_of_count(ts, t, j + 1, n)
        }
    }
}

/// Some word beginning with `-` stands at four different positions.
pub open spec fn some_flag_four_times(ts: Seq<Seq<char>>) -> bool {
    exists|i1: int, i2: int, i3: int, i4: int|
        #![trigger ts[i1], ts[i2], ts[i3], ts[i4]]
        0 <= i1 < i2 < i3 < i4 < ts.len() && ts[i1].len() > 0 && ts[i1][0] == '-' && ts[i2]
            == ts[i1] && ts[i3] == ts[i1] && ts[i4] == ts[i1]
}

/// A command is degenerate exactly when it has at least eight white-space
/// separated words and some word beginning with `-` (a flag of any form, `--long`
/// ones included) stands at four or more positions.
pub proof fn degenerate_means_a_flag_four_times(command: Seq<char>)
    ensures
        degenerate(command) <==> {
            let ts = white_words(command);
            &&& ts.len() >= 8
            &&& some_flag_four_times(ts)
        },
{
    let ts = white_words(command);
    if degenerate(command) {
        let i = choose|i: int|
            0 <= i < ts.len() && is_flag(#[trigger] ts[i]) && count_from(ts, ts[i], 0) >= 4;
        let idx = lemma_four_of_count(ts, ts[i], 0, 4);
        let (i1, i2, i3, i4) = (idx[0], idx[1], idx[2], idx[3]);
        assert(ts[i1] == ts[i] && ts[i2] == ts[i] && ts[i3] == ts[i] && ts[i4] == ts[i]);
        assert(0 <= i1 < i2 < i3 < i4 < ts.len());
        assert(some_flag_four_times(ts));
    }
    if ts.len() >= 8 && some_flag_four_times(ts) {
        let (i1, i2, i3, i4) = choose|i1: int, i2: int, i3: int, i4: int|
            #![trigger ts[i1], ts[i2], ts[i3], ts[i4]]
            0 <= i1 < i2 < i3 < i4 < ts.len() && ts[i1].len() > 0 && ts[i1][0] == '-' && ts[i2]
                == ts[i1] && ts[i3] == ts[i1] && ts[i4] == ts[i1];
        lemma_count_of_four(ts, i1, i2, i3, i4);
        assert(is_flag(ts[i1]));
    }
}

fn occurrences(ts: &Vec<Vec<char>>, t: &[char]) -> (n: usize)
    ensures
        n == count_from(views(ts@), t@, 0),
{
    let ghost tv = views(ts@);
    let mut n: usize = 0;
    let mut j: usize = 0;
    while j < ts.len()
        invariant
            j <= ts.len(),
            n <= j,
            tv == views(ts@),
            count_from(tv, t@, 0) == n + count_from(tv, t@, j as int),
        decreases ts.len() - j,
    {
        assert(ts@[j as int]@ == tv[j as int]);
        if crate::text::same(ts[j].as_slice(), t) {
            n += 1;
        }
        j += 1;
    }
    n
}

pub fn looks_degenerate(command: &str) -> (b: bool)
    ensures
        b == degenerate(command@),
{
    let s = chars_of(command);
    let tokens = split_white(s.as_slice());
    let ghost tv = views(tokens@);
    if tokens.len() < 8 {
        return false;
    }
    let mut i: usize = 0;
    while i < tokens.len()
        invariant
            i <= tokens.len(),
            tokens.len() >= 8,
            tv == views(tokens@),
            tv == white_words(command@),
            forall|k: int|
                0 <= k < i ==> !(is_flag(#[trigger] tv[k]) && count_from(tv, tv[k], 0) >= 4),
        decreases tokens.len() - i,
    {
        assert(tokens@[i as int]@ == tv[i as int]);
        let t = tokens[i].as_slice();
        if t.len() > 0 && t[0] == '-' && occurrences(&tokens, t) >= 4 {
            assert(is_flag(tv[i as int]));
            return true;
        }
        i += 1;
    }
    false
}


pub open spec fn is_one_trimmed_line(c: Seq<char>) -> bool {
    &&& !c.contains('\n')
    &&& c.len() > 0 ==> !is_white_char(c[0]) && !is_white_char(c.last())
}

proof fn lemma_trim_of_line(s: Seq<char>)
    requires
        !s.contains('\n'),
    ensures
        is_one_trimmed_line(trim(s)),
{
    let r = lemma_trim_range(s);
    lemma_subrange_lacks(s, r.0, r.1, '\n');
}

proof fn lemma_line_command(l: Seq<char>)
    requires
        !l.contains('\n'),
    ensures
        line_command(l) matches Some(c) ==> is_one_trimmed_line(c),
{
    let a = trim(l);
    lemma_trim_of_line(l);
    if !(a.len() == 0 || a[0] == '#') {
        let b = if (starts_with(a, "$ "@) || starts_with(a, "> "@) || starts_with(a, "# "@))
            && a.len() > 2 {
            lemma_subrange_lacks(a, 2, a.len() as int, '\n');
            assert(a.skip(2) =~= a.subrange(2, a.len() as int));
            lemma_trim_of_line(a.skip(2));
            trim(a.skip(2))
        } else {
            a
        };
        if b.len() > 1 && b[0] == '`' && b.last() == '`' {
            lemma_subrange_lacks(b, 1, b.len() - 1, '\n');
            lemma_trim_of_line(b.subrange(1, b.len() - 1));
        }
    }
}

proof fn lemma_first_command(ls: Seq<Seq<char>>, i: int)
    requires
        forall|k: int| 0 <= k < ls.len() ==> !(#[trigger] ls[k]).contains('\n'),
    ensures
        is_one_trimmed_line(first_command(ls, i)),
    decreases ls.len() - i,
{
    if 0 <= i < ls.len() {
        lemma_line_command(ls[i]);
        lemma_first_command(ls, i + 1);
    }
}

/// `extract_command` gives one command line: it holds no newline and neither
/// begins nor ends with white space.
pub proof fn extracted_is_one_trimmed_line(raw: Seq<char>)
    ensures
        is_one_trimmed_line(extracted(raw)),
{
    let t = trim(without_think(trim(stripped(raw))));
    let body = without_lead_in(fence_body(t));
    lemma_lines_lack_newline(body);
    lemma_first_command(lines(body), 0);
}


pub open spec fn is_prompt_echo(l: Seq<char>) -> bool {
    starts_with(l, "> "@)
}

proof fn lemma_after_prompt_prefix(p: Seq<Seq<char>>, l: Seq<Seq<char>>, k: int)
    requires
        0 <= k <= p.len(),
    ensures
        after_prompt(p + l, k) == after_prompt(p, k),
    decreases k,
{
    if k > 0 {
        assert((p + l)[k - 1] == p[k - 1]);
        lemma_after_prompt_prefix(p, l, k - 1);
    }
}

proof fn lemma_after_prompt_skips(p: Seq<Seq<char>>, l: Seq<Seq<char>>, k: int)
    requires
        p.len() <= k <= p.len() + l.len(),
        forall|m: int| 0 <= m < l.len() ==> !is_prompt_echo(#[trigger] l[m]),
    ensures
        after_prompt(p + l, k) == after_prompt(p, p.len() as int),
    decreases k,
{
    if k > p.len() {
        assert((p + l)[k - 1] == l[k - 1 - p.len()]);
        assert(!is_prompt_echo(l[k - 1 - p.len()]));
        lemma_after_prompt_skips(p, l, k - 1);
    } else {
        lemma_after_prompt_prefix(p, l, k);
    }
}

proof fn lemma_after_prompt_range(p: Seq<Seq<char>>, k: int)
    requires
        0 <= k <= p.len(),
    ensures
        0 <= after_prompt(p, k) <= k,
    decreases k,
{
    if k > 0 {
        lemma_after_prompt_range(p, k - 1);
    }
}

proof fn lemma_footer_from_range(l: Seq<Seq<char>>, j: int)
    requires
        0 <= j <= l.len(),
    ensures
        j <= footer_from(l, j) <= l.len(),
    decreases l.len() - j,
{
    if j < l.len() {
        lemma_footer_from_range(l, j + 1);
    }
}

proof fn lemma_footer_from_offset(p: Seq<Seq<char>>, l: Seq<Seq<char>>, j: int)
    requires
        0 <= j <= l.len(),
    ensures
        footer_from(p + l, p.len() + j) == p.len() + footer_from(l, j),
    decreases l.len() - j,
{
    if j < l.len() {
        assert((p + l)[p.len() + j] == l[j]);
        lemma_footer_from_offset(p, l, j + 1);
    }
}

proof fn lemma_footer_from_concat(p: Seq<Seq<char>>, l: Seq<Seq<char>>, j: int)
    requires
        0 <= j <= p.len(),
    ensures
        footer_from(p + l, j) == if footer_from(p, j) < p.len() {
            footer_from(p, j)
        } else {
            p.len() + footer_from(l, 0)
        },
    decreases p.len() - j,
{
    if j < p.len() {
        assert((p + l)[j] == p[j]);
        lemma_footer_from_concat(p, l, j + 1);
    } else {
        lemma_footer_from_offset(p, l, 0);
    }
}

proof fn lemma_plain_ascii_free(s: Seq<char>)
    requires
        plain(s),
    ensures
        cr_to_lf(s) == s,
        !s.contains('\r'),
{
    assert(cr_to_lf(s) =~= s) by {
        assert forall|i: int| 0 <= i < s.len() implies cr_to_lf(s)[i] == s[i] by {
            assert(keeps(s[i]));
        }
    }
    if s.contains('\r') {
        let k = choose|k: int| 0 <= k < s.len() && s[k] == '\r';
        assert(keeps(s[k]));
    }
}

/// The answer in llama-cli output, once its text is known to be plain.
proof fn lemma_cli_answer_plain(s: Seq<char>)
    requires
        plain(s),
    ensures
        cli_answer(s) == trim(
            join(
                lines(s).subrange(
                    after_prompt(lines(s), lines(s).len() as int),
                    footer_from(lines(s), after_prompt(lines(s), lines(s).len() as int)),
                ),
                "\n"@,
            ),
        ),
{
    lemma_plain_ascii_free(s);
    stripped_plain(s);
}

/// Everything up to and including the last line that echoes the prompt is
/// dropped: text ending in a prompt echo, followed by lines that echo no
/// prompt, gives the answer those lines alone give.
pub proof fn prompt_echo_and_above_are_dropped(a: Seq<char>, b: Seq<char>, c: Seq<char>)
    requires
        plain(a),
        plain(b),
        plain(c),
        !b.contains('\n'),
        forall|k: int| 0 <= k < lines(c).len() ==> !is_prompt_echo(#[trigger] lines(c)[k]),
    ensures
        cli_answer(a + seq!['\n'] + "> "@ + b + seq!['\n'] + c) == cli_answer(c),
{
    reveal_strlit("> ");
    let nl = seq!['\n'];
    let q = "> "@ + b;
    assert(plain(nl) && plain("> "@));
    lemma_plain_concat("> "@, b);
    lemma_plain_concat(a, nl);
    lemma_plain_concat(a + nl, q);
    lemma_plain_concat(a + nl + q, nl);
    lemma_plain_concat(a + nl + q + nl, c);
    let s = a + nl + "> "@ + b + nl + c;
    let x = a + nl + q;
    assert(s =~= x + nl + c);
    assert(!q.contains('\n')) by {
        if q.contains('\n') {
            let k = choose|k: int| 0 <= k < q.len() && q[k] == '\n';
            assert(b[k - 2] == '\n');
        }
    }
    // The lines up to the echo end with the echo itself.
    lemma_lines_after_newline(a, seq![]);
    let sa = lines_state(a + nl, 0, seq![], seq![]);
    lemma_lines_state_concat(a + nl, q, 0, seq![], seq![]);
    lemma_lines_state_no_newline(q, 0, sa.0, seq![]);
    assert(Seq::<char>::empty() + q.skip(0) =~= q);
    let sx = lines_state(x, 0, seq![], seq![]);
    assert(sx == (sa.0, q));
    assert(drop_cr(q) == q) by {
        if b.len() > 0 {
            assert(q.last() == b.last());
            assert(keeps(b[b.len() - 1]));
        }
    }
    lemma_lines_after_newline(x, c);
    let d = sx.0.push(q);
    let l = lines(c);
    assert(lines(s) == d + l);
    lemma_after_prompt_skips(d, l, (d.len() + l.len()) as int);
    assert((d + l).len() == d.len() + l.len());
    assert(q.subrange(0, 2) =~= "> "@);
    assert(d[d.len() - 1] == q);
    assert(after_prompt(d, d.len() as int) == d.len());
    lemma_footer_from_offset(d, l, 0);
    lemma_footer_from_range(l, 0);
    let e = footer_from(l, 0);
    assert((d + l).subrange(d.len() as int, d.len() + e) =~= l.subrange(0, e));
    // Lines that echo no prompt are all kept from the start.
    assert(after_prompt(l, l.len() as int) == 0) by {
        lemma_after_prompt_skips(Seq::<Seq<char>>::empty(), l, l.len() as int);
        assert(Seq::<Seq<char>>::empty() + l =~= l);
    }
    lemma_cli_answer_plain(s);
    lemma_cli_answer_plain(c);
}

/// Everything from the performance footer on is dropped: text followed by a
/// footer, after which no line echoes the prompt, gives the answer the text
/// alone gives.
pub proof fn footer_and_below_are_dropped(c: Seq<char>, f: Seq<char>)
    requires
        plain(c),
        plain(f),
        starts_with(f, "[ Prompt:"@) || starts_with(f, "Exiting..."@),
        forall|k: int| 0 <= k < lines(f).len() ==> !is_prompt_echo(#[trigger] lines(f)[k]),
    ensures
        cli_answer(c + seq!['\n'] + f) == cli_answer(c),
{
    reveal_strlit("[ Prompt:");
    reveal_strlit("Exiting...");
    reveal_strlit("> ");
    reveal_strlit("\n");
    let nl = seq!['\n'];
    assert(plain(nl));
    lemma_plain_concat(c, nl);
    lemma_plain_concat(c + nl, f);
    let s = c + nl + f;
    lemma_plain_ascii_free(c);
    lemma_plain_ascii_free(f);
    // The footer line comes first among the lines of `f`.
    let p = if starts_with(f, "[ Prompt:"@) {
        "[ Prompt:"@
    } else {
        "Exiting..."@
    };
    let g = f.skip(p.len() as int);
    assert(f =~= p + g);
    assert(!p.contains('\n')) by {
        if p.contains('\n') {
            let k = choose|k: int| 0 <= k < p.len() && p[k] == '\n';
        }
    }
    lemma_lines_state_no_newline(p, 0, seq![], seq![]);
    assert(Seq::<char>::empty() + p.skip(0) =~= p);
    lemma_lines_state_concat(p, g, 0, seq![], seq![]);
    assert(!g.contains('\r')) by {
        if g.contains('\r') {
            let k = choose|k: int| 0 <= k < g.len() && g[k] == '\r';
            assert(f[p.len() + k] == '\r');
        }
    }
    assert(p.subrange(0, p.len() as int) =~= p);
    lemma_lines_state_first_prefix(g, 0, seq![], p, p);
    lemma_lines_from_state(f, 0, seq![], seq![]);
    let fl = lines(f);
    assert(fl.len() > 0 && is_footer(fl[0]));
    // The lines of `c` and of `f`.
    lemma_lines_after_newline(c, f);
    let sc = lines_state(c, 0, seq![], seq![]);
    lemma_lines_state_no_cr(c, 0, seq![], seq![]);
    assert(drop_cr(sc.1) == sc.1);
    let dc = sc.0.push(sc.1);
    assert(lines(s) == dc + fl);
    lemma_lines_from_state(c, 0, seq![], seq![]);
    let lc = lines(c);
    lemma_after_prompt_skips(dc, fl, (dc.len() + fl.len()) as int);
    assert((dc + fl).len() == dc.len() + fl.len());
    let start = after_prompt(dc, dc.len() as int);
    lemma_after_prompt_range(dc, dc.len() as int);
    lemma_footer_from_concat(dc, fl, start);
    lemma_footer_from_range(dc, start);
    let e = footer_from(dc, start);
    assert(footer_from(dc + fl, start) == e);
    assert((dc + fl).subrange(start, e) =~= dc.subrange(start, e));
    lemma_cli_answer_plain(s);
    lemma_cli_answer_plain(c);
    if sc.1.len() == 0 {
        // `c` ends its last line, so one empty line stands between it and the footer.
        let empty: Seq<char> = seq![];
        assert(sc.1 =~= empty);
        assert(dc =~= lc + seq![empty]);
        assert(!is_prompt_echo(empty));
        assert(!is_footer(empty));
        assert(after_prompt(dc, dc.len() as int) == after_prompt(dc, lc.len() as int));
        lemma_after_prompt_prefix(lc, seq![empty], lc.len() as int);
        assert(start == after_prompt(lc, lc.len() as int));
        lemma_after_prompt_range(lc, lc.len() as int);
        lemma_footer_from_concat(lc, seq![empty], start);
        lemma_footer_from_range(lc, start);
        let e2 = footer_from(lc, start);
        if e2 < lc.len() {
            assert(e == e2);
            assert(dc.subrange(start, e) =~= lc.subrange(start, e2));
        } else {
            assert(footer_from(seq![empty], 1) == 1);
            assert(footer_from(seq![empty], 0) == 1);
            assert(e == lc.len() + 1);
            let kept = lc.subrange(start, e2);
            assert(dc.subrange(start, e) =~= kept.push(empty));
            if kept.len() == 0 {
                assert(kept.push(empty) =~= seq![empty]);
            } else {
                assert(kept.push(empty).drop_last() =~= kept);
                assert(join(kept.push(empty), "\n"@) == join(kept, "\n"@) + "\n"@ + empty);
                assert(join(kept, "\n"@) + "\n"@ + empty =~= join(kept, "\n"@) + "\n"@);
                lemma_trim_white_tail(join(kept, "\n"@), "\n"@);
            }
        }
    } else {
        assert(lc == dc);
    }
}


proof fn lemma_think_tags()
    ensures
        "<think>"@ =~= seq!['<', 't', 'h', 'i', 'n', 'k', '>'],
        "</think>"@ =~= seq!['<', '/', 't', 'h', 'i', 'n', 'k', '>'],
{
    reveal_strlit("<think>");
    reveal_strlit("</think>");
}

/// White space in front is kept in front when think blocks are removed.
proof fn lemma_without_think_white_head(w: Seq<char>, x: Seq<char>)
    requires
        all_white(w),
    ensures
        without_think(w + x) == w + without_think(x),
    decreases x.len(),
{
    lemma_think_tags();
    let open = "<think>"@;
    let close = "</think>"@;
    lemma_find_after_white(w, x, open);
    match find(x, open) {
        None => {},
        Some(st) => {
            lemma_find_from_some(x, open, 0);
            let rest = x.skip(st + open.len());
            assert((w + x).skip(st + w.len() + open.len()) =~= rest);
            match find(rest, close) {
                Some(rel) => {
                    lemma_find_from_some(rest, close, 0);
                    let y = x.take(st) + rest.skip(rel + close.len());
                    assert((w + x).take(st + w.len()) + rest.skip(rel + close.len()) =~= w + y);
                    lemma_without_think_white_head(w, y);
                },
                None => {
                    assert((w + x).take(st + w.len()) =~= w + x.take(st));
                },
            }
        },
    }
}

proof fn lemma_close_tag_opens_once(m: int)
    requires
        1 <= m < 8,
    ensures
        "</think>"@[m] != '<',
{
    lemma_think_tags();
}

proof fn lemma_no_close_before(t: Seq<char>, u: Seq<char>, j: int)
    requires
        0 <= j < t.len(),
        !contains_seq(t, "</think>"@),
    ensures
        !occurs_at(t + "</think>"@ + u, "</think>"@, j),
{
    lemma_think_tags();
    let close = "</think>"@;
    let rest = t + close + u;
    if occurs_at(rest, close, j) {
        if j + 8 <= t.len() {
            assert(t.subrange(j, j + 8) =~= rest.subrange(j, j + 8));
            assert(occurs_at(t, close, j));
        } else {
            let m = t.len() - j;
            assert(rest.subrange(j, j + 8)[m] == rest[t.len() as int]);
            assert(rest[t.len() as int] == close[0]);
            lemma_close_tag_opens_once(m);
        }
    }
}

proof fn lemma_close_first_after(t: Seq<char>, u: Seq<char>)
    requires
        !contains_seq(t, "</think>"@),
    ensures
        find(t + "</think>"@ + u, "</think>"@) == Some(t.len() as int),
{
    lemma_think_tags();
    let close = "</think>"@;
    let rest = t + close + u;
    assert(occurs_at(rest, close, t.len() as int)) by {
        assert(rest.subrange(t.len() as int, t.len() + 8int) =~= close);
    }
    assert forall|j: int| 0 <= j < t.len() implies !occurs_at(rest, close, j) by {
        lemma_no_close_before(t, u, j);
    }
    lemma_find_least(rest, close, 0, t.len() as int);
}

/// A think block closed at its first `</think>`, in front of the text, is removed.
proof fn lemma_without_leading_think(t: Seq<char>, u: Seq<char>)
    requires
        !contains_seq(t, "</think>"@),
    ensures
        without_think("<think>"@ + t + "</think>"@ + u) == without_think(u),
{
    lemma_think_tags();
    let open = "<think>"@;
    let close = "</think>"@;
    let s = open + t + close + u;
    assert(occurs_at(s, open, 0)) by {
        assert(s.subrange(0, 7) =~= open);
    }
    lemma_find_least(s, open, 0, 0);
    assert(find(s, open) == Some(0int));
    let rest = s.skip(7);
    assert(rest =~= t + close + u);
    lemma_close_first_after(t, u);
    assert(find(rest, close) == Some(t.len() as int));
    assert(s.take(0) + rest.skip(t.len() + 8int) =~= u);
    assert(without_think(s) == without_think(s.take(0) + rest.skip(t.len() + 8int)));
}

/// A closed think block in front of a response is ignored: a block that opens
/// with `<think>` and closes at its first `</think>`, before plain text, gives
/// the command that text alone gives.
pub proof fn leading_think_block_is_ignored(t: Seq<char>, s: Seq<char>)
    requires
        plain(t),
        plain(s),
        !contains_seq(t, "</think>"@),
    ensures
        extracted("<think>"@ + t + "</think>"@ + s) == extracted(s),
{
    lemma_think_tags();
    let open = "<think>"@;
    let close = "</think>"@;
    assert(plain(open) && plain(close));
    lemma_plain_concat(open, t);
    lemma_plain_concat(open + t, close);
    lemma_plain_concat(open + t + close, s);
    let p = open + t + close;
    let raw = p + s;
    stripped_plain(raw);
    stripped_plain(s);
    // Trimming the response trims only the end of `s`.
    assert(trim_start(raw) == raw) by {
        assert(raw[0] == '<');
    }
    lemma_trim_end_concat(p, s);
    assert(trim_end(p) == p) by {
        assert(p.last() == '>');
    }
    let u = trim_end(s);
    assert(trim(raw) == p + u) by {
        if u.len() == 0 {
            assert(p + u =~= p);
        }
    }
    lemma_without_leading_think(t, u);
    // `trim_end(s)` is `trim(s)` behind the white space `s` starts with.
    let k = lemma_trim_start_split(s);
    let w = s.take(k);
    let v = s.skip(k);
    assert(s =~= w + v);
    lemma_trim_end_concat(w, v);
    assert(trim(s) == trim_end(v));
    if trim_end(v).len() > 0 {
        assert(u == w + trim(s));
        lemma_without_think_white_head(w, trim(s));
        lemma_trim_white_head(w, without_think(trim(s)));
    } else {
        lemma_trim_end_all_white(w);
        assert(u =~= trim(s));
    }
    assert(trim(without_think(trim(stripped(raw)))) == trim(without_think(trim(stripped(s)))));
}

/// The conversational lead-ins removed from the front of a response, in the
/// order in which they are tried.
pub open spec fn lead_ins() -> Seq<Seq<char>> {
    seq![
        "sure:"@,
        "certainly:"@,
        "here's the command:"@,
        "here is the command:"@,
        "the command is:"@,
        "command:"@,
        "answer:"@,
    ]
}

pub open spec fn lead_in_char(c: char) -> bool {
    ('a' <= c && c <= 'z') || c == ' ' || c == '\'' || c == ':'
}

proof fn lemma_lead_in_texts()
    ensures
        lead_ins().len() == 7,
        lead_ins()[0] == seq!['s', 'u', 'r', 'e', ':'],
        lead_ins()[1] == seq!['c', 'e', 'r', 't', 'a', 'i', 'n', 'l', 'y', ':'],
        lead_ins()[2] == seq![
            'h', 'e', 'r', 'e', '\'', 's', ' ', 't', 'h', 'e', ' ', 'c', 'o', 'm', 'm', 'a', 'n',
            'd', ':',
        ],
        lead_ins()[3] == seq![
            'h', 'e', 'r', 'e', ' ', 'i', 's', ' ', 't', 'h', 'e', ' ', 'c', 'o', 'm', 'm', 'a',
            'n', 'd', ':',
        ],
        lead_ins()[4] == seq![
            't', 'h', 'e', ' ', 'c', 'o', 'm', 'm', 'a', 'n', 'd', ' ', 'i', 's', ':',
        ],
        lead_ins()[5] == seq!['c', 'o', 'm', 'm', 'a', 'n', 'd', ':'],
        lead_ins()[6] == seq!['a', 'n', 's', 'w', 'e', 'r', ':'],
{
    reveal_strlit("sure:");
    reveal_strlit("certainly:");
    reveal_strlit("here's the command:");
    reveal_strlit("here is the command:");
    reveal_strlit("the command is:");
    reveal_strlit("command:");
    reveal_strlit("answer:");
    assert(lead_ins()[0] =~= seq!['s', 'u', 'r', 'e', ':']);
}

/// Each lead-in begins with a lowercase letter, ends with a colon and is
/// written in lowercase letters, spaces, apostrophes and colons.
proof fn lemma_lead_in_shape(k: int)
    requires
        0 <= k < lead_ins().len(),
    ensures
        lead_ins()[k].len() >= 2,
        'a' <= lead_ins()[k][0] && lead_ins()[k][0] <= 'z',
        lead_ins()[k].last() == ':',
        forall|i: int| 0 <= i < lead_ins()[k].len() ==> lead_in_char(#[trigger] lead_ins()[k][i]),
{
    lemma_lead_in_texts();
}

proof fn lemma_starts_differently(s: Seq<char>, a: Seq<char>, b: Seq<char>, m: int)
    requires
        starts_with(s, a),
        0 <= m < a.len(),
        m < b.len(),
        a[m] != b[m],
    ensures
        !starts_with(s, b),
{
    assert(s.subrange(0, a.len() as int)[m] == s[m]);
    if starts_with(s, b) {
        assert(s.subrange(0, b.len() as int)[m] == s[m]);
    }
}

/// A text whose lowercase form begins with one of the lead-ins loses that
/// lead-in, and the rest is trimmed.
pub proof fn a_lead_in_is_removed(t: Seq<char>, k: int)
    requires
        0 <= k < lead_ins().len(),
        starts_with(lower_seq(t), lead_ins()[k]),
    ensures
        without_lead_in(t) == trim(t.skip(lead_ins()[k].len() as int)),
{
    lemma_lead_in_texts();
    reveal_strlit("sure:");
    reveal_strlit("certainly:");
    reveal_strlit("here's the command:");
    reveal_strlit("here is the command:");
    reveal_strlit("the command is:");
    reveal_strlit("command:");
    reveal_strlit("answer:");
    let l = lower_seq(t);
    let p = lead_ins();
    if k >= 1 {
        lemma_starts_differently(l, p[k], p[0], 0);
    }
    if k >= 2 {
        lemma_starts_differently(l, p[k], p[1], if k == 5 { 1 } else { 0 });
    }
    if k >= 3 {
        lemma_starts_differently(l, p[k], p[2], if k == 3 { 4 } else { 0 });
    }
    if k >= 4 {
        lemma_starts_differently(l, p[k], p[3], 0);
    }
    if k >= 5 {
        lemma_starts_differently(l, p[k], p[4], 0);
    }
    if k >= 6 {
        lemma_starts_differently(l, p[k], p[5], 0);
    }
}

/// Lowering changes only an uppercase ASCII letter, into a lowercase one.
proof fn lemma_lower_char_cases(x: char)
    ensures
        lower_char(x) == x || ('A' <= x && x <= 'Z' && 'a' <= lower_char(x) && lower_char(x) <= 'z'),
{
}

/// A text whose lowercase form is a lead-in is plain, holds no `<` and no
/// backquote, begins with a letter and ends with a colon.
proof fn lemma_lead_in_written(q: Seq<char>, k: int)
    requires
        0 <= k < lead_ins().len(),
        lower_seq(q) == lead_ins()[k],
    ensures
        q.len() == lead_ins()[k].len(),
        plain(q),
        !q.contains('<'),
        !q.contains('`'),
        q.len() > 0 && !is_white_char(q[0]) && q.last() == ':',
{
    lemma_lead_in_shape(k);
    let p = lead_ins()[k];
    assert(q.len() == p.len());
    assert forall|i: int| 0 <= i < q.len() implies keeps(#[trigger] q[i]) && q[i] != '<' && q[i]
        != '`' by {
        assert(p[i] == lower_char(q[i]));
        assert(lead_in_char(p[i]));
        lemma_lower_char_cases(q[i]);
    }
    assert(p[0] == lower_char(q[0]));
    lemma_lower_char_cases(q[0]);
    assert(p[q.len() - 1] == lower_char(q[q.len() - 1]));
    lemma_lower_char_cases(q[q.len() - 1]);
}

/// A pattern whose first character `h` lacks stands in `h + x` only where it
/// stands in `x`.
proof fn lemma_absent_after_head(h: Seq<char>, x: Seq<char>, p: Seq<char>)
    requires
        p.len() > 0,
        !h.contains(p[0]),
        !contains_seq(x, p),
    ensures
        !contains_seq(h + x, p),
{
    let s = h + x;
    if contains_seq(s, p) {
        let i = choose|i: int| occurs_at(s, p, i);
        assert(s.subrange(i, i + p.len())[0] == s[i]);
        if i < h.len() {
            assert(s[i] == h[i]);
        } else {
            assert(s.subrange(i, i + p.len()) =~= x.subrange(i - h.len(), i - h.len() + p.len()));
            assert(occurs_at(x, p, i - h.len()));
        }
    }
}

/// A command line as it is kept: not a comment, not behind a `$ ` or `> `
/// prompt, and not enclosed in backquotes.
pub open spec fn is_bare_command(a: Seq<char>) -> bool {
    a.len() > 0 ==> {
        &&& a[0] != '#'
        &&& !starts_with(a, "$ "@)
        &&& !starts_with(a, "> "@)
        &&& !(a.len() > 1 && a[0] == '`' && a.last() == '`')
    }
}

/// `c` trimmed is what remains of `c` trimmed at the end once its leading white
/// space is gone.
proof fn lemma_trim_parts(c: Seq<char>) -> (w: Seq<char>)
    requires
        !c.contains('\n'),
    ensures
        all_white(w),
        trim(c).len() > 0 ==> trim_end(c) == w + trim(c),
        trim(c).len() == 0 ==> trim_end(c).len() == 0,
        is_prefix(trim_end(c), c),
        !trim(c).contains('\n'),
        trim(c).len() > 0 ==> !is_white_char(trim(c)[0]) && !is_white_char(trim(c).last()),
{
    let k0 = lemma_trim_start_split(c);
    let w = c.take(k0);
    let v = c.skip(k0);
    assert(c =~= w + v);
    lemma_trim_end_concat(w, v);
    if trim(c).len() == 0 {
        lemma_trim_end_all_white(w);
    }
    let r = lemma_trim_range(c);
    lemma_subrange_lacks(c, r.0, r.1, '\n');
    let kk = lemma_trim_end_range(c);
    w
}

/// The trimmed response: the lead-in, and, where `c` holds more than white
/// space, a space and `c` trimmed at the end.
proof fn lemma_lead_in_response(q: Seq<char>, k: int, c: Seq<char>)
    requires
        0 <= k < lead_ins().len(),
        lower_seq(q) == lead_ins()[k],
        plain(c),
        !c.contains('\n'),
    ensures
        trim(stripped(q + " "@ + c)) == if trim(c).len() > 0 {
            q + " "@ + trim_end(c)
        } else {
            q
        },
{
    reveal_strlit(" ");
    lemma_lead_in_written(q, k);
    let sp = " "@;
    assert(plain(sp));
    lemma_plain_concat(q, sp);
    lemma_plain_concat(q + sp, c);
    let raw = q + sp + c;
    stripped_plain(raw);
    lemma_trim_parts(c);
    assert(trim_start(raw) == raw) by {
        assert(raw[0] == q[0]);
    }
    lemma_trim_end_concat(q + sp, c);
    assert(trim_end(q) == q);
    assert((q + sp).last() == ' ');
    assert((q + sp).drop_last() =~= q);
    assert(trim_end(q + sp) == q);
}

/// Text that starts with `h`, which holds no `<` and no backquote, and goes on
/// with a text that holds no think tag and no code fence, is left as it is by
/// the removal of think blocks and by the search for a fence.
proof fn lemma_no_think_no_fence(h: Seq<char>, e: Seq<char>)
    requires
        !h.contains('<'),
        !h.contains('`'),
        !contains_seq(e, "<think>"@),
        !contains_seq(e, "```"@),
    ensures
        without_think(h + e) == h + e,
        fence_body(h + e) == h + e,
{
    reveal_strlit("<think>");
    reveal_strlit("```");
    lemma_absent_after_head(h, e, "<think>"@);
    lemma_absent_after_head(h, e, "```"@);
    lemma_find_absent(h + e, "<think>"@, 0);
    lemma_find_absent(h + e, "```"@, 0);
}

/// A trimmed one-line bare command is the command of the text it forms.
proof fn lemma_single_command(m: Seq<char>)
    requires
        !m.contains('\n'),
        is_bare_command(m),
        m.len() > 0 ==> !is_white_char(m[0]) && !is_white_char(m.last()),
    ensures
        first_command(lines(m), 0) == m,
{
    lemma_lines_from_state(m, 0, seq![], seq![]);
    lemma_lines_state_no_newline(m, 0, seq![], seq![]);
    assert(Seq::<char>::empty() + m.skip(0) =~= m);
    if m.len() > 0 {
        assert(lines(m) == seq![m]);
        assert(trim_start(m) == m);
        assert(trim_end(m) == m);
        assert(!starts_with(m, "# "@)) by {
            reveal_strlit("# ");
            if starts_with(m, "# "@) {
                assert(m.subrange(0, 2)[0] == m[0]);
            }
        }
        assert(line_command(m) == Some(m));
    } else {
        assert(lines(m) == Seq::<Seq<char>>::empty());
    }
}

/// A lead-in in front of a command is dropped: one of the lead-ins, written in
/// any ASCII case, then a space and a plain one-line command that holds no
/// think tag and no code fence, gives that command, trimmed.
pub proof fn lead_ins_are_removed(q: Seq<char>, k: int, c: Seq<char>)
    requires
        0 <= k < lead_ins().len(),
        lower_seq(q) == lead_ins()[k],
        plain(c),
        !c.contains('\n'),
        !contains_seq(c, "<think>"@),
        !contains_seq(c, "```"@),
        is_bare_command(trim(c)),
    ensures
        extracted(q + " "@ + c) == trim(c),
{
    reveal_strlit(" ");
    lemma_lead_in_written(q, k);
    let sp = " "@;
    let w = lemma_trim_parts(c);
    let m = trim(c);
    let e = trim_end(c);
    lemma_lead_in_response(q, k, c);
    let h = if m.len() > 0 {
        q + sp
    } else {
        q
    };
    let t0 = h + e;
    assert(trim(stripped(q + sp + c)) == t0) by {
        if m.len() == 0 {
            assert(q + e =~= q);
        }
    }
    assert(!contains_seq(e, "<think>"@)) by {
        if contains_seq(e, "<think>"@) {
            lemma_contains_prefix(e, c, "<think>"@);
        }
    }
    assert(!contains_seq(e, "```"@)) by {
        if contains_seq(e, "```"@) {
            lemma_contains_prefix(e, c, "```"@);
        }
    }
    assert(!h.contains('<') && !h.contains('`')) by {
        assert forall|i: int| 0 <= i < h.len() implies h[i] != '<' && h[i] != '`' by {
            if i < q.len() {
                assert(h[i] == q[i]);
            }
        }
    }
    lemma_no_think_no_fence(h, e);
    assert(trim(t0) == t0) by {
        assert(t0[0] == q[0]);
        assert(trim_start(t0) == t0);
        if m.len() > 0 {
            assert(t0.last() == m.last());
        } else {
            assert(t0.last() == q.last());
        }
    }
    assert(lower_seq(t0).subrange(0, q.len() as int) =~= lead_ins()[k]) by {
        assert forall|i: int| 0 <= i < q.len() implies lower_seq(t0)[i] == lower_seq(q)[i] by {
            assert(t0[i] == q[i]);
        }
    }
    a_lead_in_is_removed(t0, k);
    assert(without_lead_in(t0) == m) by {
        if m.len() > 0 {
            assert(t0.skip(q.len() as int) =~= sp + w + m);
            assert(all_white(sp + w)) by {
                assert forall|i: int| 0 <= i < (sp + w).len() implies is_white_char(
                    #[trigger] (sp + w)[i],
                ) by {
                    if i > 0 {
                        assert((sp + w)[i] == w[i - 1]);
                    }
                }
            }
            lemma_trim_white_head(sp + w, m);
            assert(trim_start(m) == m);
            assert(trim_end(m) == m);
        } else {
            assert(t0.skip(q.len() as int) =~= Seq::<char>::empty());
        }
    }
    lemma_single_command(m);
}

/// A pattern that stands in a stretch of a text stands in the text.
proof fn lemma_contains_subrange(s: Seq<char>, lo: int, hi: int, p: Seq<char>)
    requires
        0 <= lo <= hi <= s.len(),
        contains_seq(s.subrange(lo, hi), p),
    ensures
        contains_seq(s, p),
{
    let i = choose|i: int| occurs_at(s.subrange(lo, hi), p, i);
    assert(s.subrange(lo + i, lo + i + p.len()) =~= s.subrange(lo, hi).subrange(i, i + p.len()));
    assert(occurs_at(s, p, lo + i));
}

/// A text that begins with neither an ASCII letter nor white space begins
/// with no lead-in.
proof fn lemma_no_lead_in(t: Seq<char>, k: int)
    requires
        0 <= k < lead_ins().len(),
        t.len() > 0,
        !('a' <= t[0] && t[0] <= 'z'),
        !('A' <= t[0] && t[0] <= 'Z'),
    ensures
        !starts_with(lower_seq(t), lead_ins()[k]),
{
    lemma_lead_in_shape(k);
    assert(lower_seq(t)[0] == t[0]);
    if starts_with(lower_seq(t), lead_ins()[k]) {
        assert(lower_seq(t).subrange(0, lead_ins()[k].len() as int)[0] == lower_seq(t)[0]);
    }
}

/// The command of a one-line response that holds no think tag, no code fence
/// and no lead-in is the command its one line holds.
proof fn lemma_one_line_response(r: Seq<char>)
    requires
        plain(r),
        !r.contains('\n'),
        !contains_seq(r, "<think>"@),
        !contains_seq(r, "```"@),
        forall|k: int| 0 <= k < lead_ins().len() ==> !starts_with(lower_seq(trim(r)), #[trigger] lead_ins()[k]),
    ensures
        extracted(r) == match line_command(trim(r)) {
            Some(c) => c,
            None => seq![],
        },
{
    stripped_plain(r);
    let t0 = trim(r);
    let rg = lemma_trim_range(r);
    lemma_subrange_lacks(r, rg.0, rg.1, '\n');
    assert(!contains_seq(t0, "<think>"@)) by {
        if contains_seq(t0, "<think>"@) {
            lemma_contains_subrange(r, rg.0, rg.1, "<think>"@);
        }
    }
    assert(!contains_seq(t0, "```"@)) by {
        if contains_seq(t0, "```"@) {
            lemma_contains_subrange(r, rg.0, rg.1, "```"@);
        }
    }
    lemma_find_absent(t0, "<think>"@, 0);
    lemma_find_absent(t0, "```"@, 0);
    assert(without_think(t0) == t0);
    assert(trim(t0) == t0) by {
        if t0.len() > 0 {
            assert(trim_start(t0) == t0);
            assert(trim_end(t0) == t0);
        } else {
            assert(trim_start(t0) == t0);
        }
    }
    assert(fence_body(t0) == t0);
    assert(!starts_with(lower_seq(t0), lead_ins()[0]));
    assert(!starts_with(lower_seq(t0), lead_ins()[1]));
    assert(!starts_with(lower_seq(t0), lead_ins()[2]));
    assert(!starts_with(lower_seq(t0), lead_ins()[3]));
    assert(!starts_with(lower_seq(t0), lead_ins()[4]));
    assert(!starts_with(lower_seq(t0), lead_ins()[5]));
    assert(!starts_with(lower_seq(t0), lead_ins()[6]));
    assert(without_lead_in(t0) == t0);
    lemma_lines_from_state(t0, 0, seq![], seq![]);
    lemma_lines_state_no_newline(t0, 0, seq![], seq![]);
    assert(Seq::<char>::empty() + t0.skip(0) =~= t0);
    if t0.len() > 0 {
        assert(lines(t0) == seq![t0]);
        if line_command(t0) is None {
            assert(first_command(seq![t0], 1) == Seq::<char>::empty());
        }
    } else {
        assert(lines(t0) == Seq::<Seq<char>>::empty());
        assert(trim_start(t0) == t0);
        assert(line_command(t0) is None);
    }
}

/// A trimmed text is its own trimmed form.
proof fn lemma_trimmed_is_fixed(m: Seq<char>)
    requires
        m.len() > 0 ==> !is_white_char(m[0]) && !is_white_char(m.last()),
    ensures
        trim(m) == m,
{
    assert(trim_start(m) == m);
    if m.len() > 0 {
        assert(trim_end(m) == m);
    }
}

/// The shell prompts a command may be shown behind.
pub open spec fn line_prompts() -> Seq<Seq<char>> {
    seq!["$ "@, "> "@]
}

/// A command shown behind a `$ ` or `> ` prompt is extracted without it: the
/// prompt, then a plain one-line command that holds no think tag and no code
/// fence and is not enclosed in backquotes, gives that command, trimmed.
pub proof fn prompts_are_removed(k: int, c: Seq<char>)
    requires
        0 <= k < line_prompts().len(),
        plain(c),
        !c.contains('\n'),
        !contains_seq(c, "<think>"@),
        !contains_seq(c, "```"@),
        trim(c).len() > 0,
        !(trim(c).len() > 1 && trim(c)[0] == '`' && trim(c).last() == '`'),
    ensures
        extracted(line_prompts()[k] + c) == trim(c),
{
    reveal_strlit("$ ");
    reveal_strlit("> ");
    reveal_strlit("# ");
    reveal_strlit("<think>");
    reveal_strlit("```");
    let p = line_prompts()[k];
    assert(p.len() == 2 && p[1] == ' ' && (p[0] == '$' || p[0] == '>'));
    assert(plain(p));
    assert(!p.contains('<') && !p.contains('`') && !p.contains('\n'));
    let r = p + c;
    lemma_plain_concat(p, c);
    lemma_absent_after_head(p, c, "<think>"@);
    lemma_absent_after_head(p, c, "```"@);
    assert(!r.contains('\n')) by {
        if r.contains('\n') {
            let i = choose|i: int| 0 <= i < r.len() && r[i] == '\n';
            if i >= 2 {
                assert(c[i - 2] == '\n');
            }
        }
    }
    let w = lemma_trim_parts(c);
    let m = trim(c);
    assert(trim_start(r) == r) by {
        assert(r[0] == p[0]);
    }
    lemma_trim_end_concat(p, c);
    let t0 = p + (w + m);
    assert(trim(r) == t0);
    assert forall|j: int| 0 <= j < lead_ins().len() implies !starts_with(
        lower_seq(trim(r)),
        #[trigger] lead_ins()[j],
    ) by {
        assert(t0[0] == p[0]);
        lemma_no_lead_in(t0, j);
    }
    lemma_one_line_response(r);
    // The line's command.
    assert(t0.last() == m.last());
    lemma_trimmed_is_fixed(t0);
    assert(t0.subrange(0, 2) =~= p);
    assert(starts_with(t0, "$ "@) || starts_with(t0, "> "@));
    assert(t0.skip(2) =~= w + m);
    lemma_trim_white_head(w, m);
    lemma_trimmed_is_fixed(m);
    assert(line_command(t0) == Some(m));
}

/// A command enclosed in backquotes is extracted without them: a backquote, a
/// plain one-line text without backquotes or think tags, and a backquote give
/// that text, trimmed.
pub proof fn backquotes_are_removed(c: Seq<char>)
    requires
        plain(c),
        !c.contains('\n'),
        !c.contains('`'),
        !contains_seq(c, "<think>"@),
    ensures
        extracted(seq!['`'] + c + seq!['`']) == trim(c),
{
    reveal_strlit("$ ");
    reveal_strlit("> ");
    reveal_strlit("# ");
    reveal_strlit("<think>");
    reveal_strlit("```");
    let q = seq!['`'];
    let r = q + c + q;
    let n = r.len() as int;
    assert(plain(q));
    lemma_plain_concat(q, c);
    lemma_plain_concat(q + c, q);
    assert(forall|j: int| 0 <= j < c.len() ==> r[j + 1] == #[trigger] c[j]);
    assert(!r.contains('\n')) by {
        if r.contains('\n') {
            let i = choose|i: int| 0 <= i < r.len() && r[i] == '\n';
            assert(c[i - 1] == '\n');
        }
    }
    assert(!contains_seq(r, "<think>"@)) by {
        if contains_seq(r, "<think>"@) {
            let i = choose|i: int| occurs_at(r, "<think>"@, i);
            assert(r.subrange(i, i + 7)[0] == r[i]);
            assert(r[i] == '<');
            assert(1 <= i < n - 1);
            if i + 7 <= n - 1 {
                assert(r.subrange(i, i + 7) =~= c.subrange(i - 1, i + 6));
                assert(occurs_at(c, "<think>"@, i - 1));
            } else {
                assert(r.subrange(i, i + 7)[n - 1 - i] == r[n - 1]);
            }
        }
    }
    assert(!contains_seq(r, "```"@)) by {
        if contains_seq(r, "```"@) {
            let i = choose|i: int| occurs_at(r, "```"@, i);
            assert(r.subrange(i, i + 3)[1] == r[i + 1]);
            if 1 <= i + 1 < n - 1 {
                assert(c[i] == '`');
            }
        }
    }
    assert(r[0] == '`' && r[n - 1] == '`');
    lemma_trimmed_is_fixed(r);
    assert forall|j: int| 0 <= j < lead_ins().len() implies !starts_with(
        lower_seq(trim(r)),
        #[trigger] lead_ins()[j],
    ) by {
        lemma_no_lead_in(r, j);
    }
    lemma_one_line_response(r);
    assert(!starts_with(r, "$ "@) && !starts_with(r, "> "@) && !starts_with(r, "# "@)) by {
        assert(r.subrange(0, 2)[0] == r[0]);
    }
    assert(r.subrange(1, n - 1) =~= c);
}

/// A pattern that stands neither in `x` nor across its end stands nowhere in
/// `x + y`, when `y` lacks the pattern's first character and the pattern lacks
/// `y`'s first character.
proof fn lemma_absent_before(x: Seq<char>, y: Seq<char>, p: Seq<char>)
    requires
        p.len() > 0,
        y.len() > 0,
        !contains_seq(x, p),
        !y.contains(p[0]),
        !p.contains(y[0]),
    ensures
        !contains_seq(x + y, p),
{
    let s = x + y;
    if contains_seq(s, p) {
        let i = choose|i: int| occurs_at(s, p, i);
        assert(s.subrange(i, i + p.len())[0] == s[i]);
        if i >= x.len() {
            assert(s[i] == y[i - x.len()]);
        } else if i + p.len() <= x.len() {
            assert(s.subrange(i, i + p.len()) =~= x.subrange(i, i + p.len()));
            assert(occurs_at(x, p, i));
        } else {
            assert(s.subrange(i, i + p.len())[x.len() - i] == s[x.len() as int]);
            assert(p[x.len() - i] == y[0]);
        }
    }
}

/// `trim_fence_space(s)` drops the fence spaces `s` starts with.
proof fn lemma_fence_space_split(s: Seq<char>) -> (k: int)
    ensures
        0 <= k <= s.len(),
        trim_fence_space(s) == s.skip(k),
        forall|j: int| 0 <= j < k ==> is_fence_space(#[trigger] s[j]),
        k < s.len() ==> !is_fence_space(s[k]),
    decreases s.len(),
{
    if s.len() > 0 && is_fence_space(s[0]) {
        let k = lemma_fence_space_split(s.drop_first());
        assert(s.drop_first().skip(k) =~= s.skip(k + 1));
        assert forall|j: int| 0 <= j < k + 1 implies is_fence_space(#[trigger] s[j]) by {
            if j > 0 {
                assert(s[j] == s.drop_first()[j - 1]);
            }
        }
        k + 1
    } else {
        assert(s.skip(0) =~= s);
        0
    }
}

/// Past the opening fence and its tag, the fence's body is the command trimmed.
proof fn lemma_fence_body_rest(c: Seq<char>)
    requires
        !c.contains('`'),
        trim(c).len() > 0,
    ensures
        ({
            let body = trim_fence_space(seq!['\n'] + c + seq!['\n'] + "```"@);
            let piece = match find(body, "```"@) {
                Some(e) => body.take(e),
                None => body,
            };
            trim(piece) == trim(c)
        }),
{
    reveal_strlit("```");
    let f = "```"@;
    let nl = seq!['\n'];
    let rest = nl + c + nl + f;
    // Fence spaces before the command go.
    let rg = lemma_trim_range(c);
    assert(!is_white_char(c[rg.0]));
    let j = lemma_fence_space_split(rest);
    assert(rest[1 + rg.0] == c[rg.0]);
    assert(j <= 1 + rg.0);
    assert(j >= 1) by {
        assert(is_fence_space(rest[0]));
    }
    let lead = c.take(j - 1);
    let tail = c.skip(j - 1);
    assert(c =~= lead + tail);
    assert(all_white(lead)) by {
        assert forall|i: int| 0 <= i < lead.len() implies is_white_char(#[trigger] lead[i]) by {
            assert(rest[i + 1] == lead[i]);
            assert(is_fence_space(rest[i + 1]));
        }
    }
    let body = trim_fence_space(rest);
    assert(body =~= tail + nl + f);
    // The closing fence ends the command.
    let ef = tail.len() as int + 1;
    assert(occurs_at(body, f, ef)) by {
        assert(body.subrange(ef, ef + 3) =~= f);
    }
    assert forall|i: int| 0 <= i < ef implies !occurs_at(body, f, i) by {
        assert(body.subrange(i, i + 3)[0] == body[i]);
        if i < tail.len() {
            assert(body[i] == c[i + j - 1]);
        }
    }
    lemma_find_least(body, f, 0, ef);
    let piece = body.take(ef);
    assert(piece =~= tail + nl);
    assert(all_white(nl));
    lemma_trim_white_tail(tail, nl);
    lemma_trim_white_head(lead, tail);
}

/// The tags a code fence may carry.
pub open spec fn fence_tags() -> Seq<Seq<char>> {
    seq![""@, "bash"@, "sh"@]
}

/// A command in a Markdown code fence is extracted from it: a fence, with no
/// tag or a `bash` or `sh` tag, a line holding a plain command that holds no
/// backquote and no think tag, begins with no lead-in and is a bare command,
/// and the closing fence give that command, trimmed.
pub proof fn fenced_commands_are_extracted(k: int, c: Seq<char>)
    requires
        0 <= k < fence_tags().len(),
        plain(c),
        !c.contains('\n'),
        !c.contains('`'),
        !contains_seq(c, "<think>"@),
        trim(c).len() > 0,
        is_bare_command(trim(c)),
        forall|j: int| 0 <= j < lead_ins().len() ==> !starts_with(lower_seq(trim(c)), #[trigger] lead_ins()[j]),
    ensures
        extracted("```"@ + fence_tags()[k] + seq!['\n'] + c + seq!['\n'] + "```"@) == trim(c),
{
    reveal_strlit("");
    reveal_strlit("bash");
    reveal_strlit("sh");
    reveal_strlit("<think>");
    reveal_strlit("```");
    let f = "```"@;
    let tag = fence_tags()[k];
    let nl = seq!['\n'];
    let raw = f + tag + nl + c + nl + f;
    let m = trim(c);
    assert(plain(f) && plain(tag) && plain(nl));
    lemma_plain_concat(f, tag);
    lemma_plain_concat(f + tag, nl);
    lemma_plain_concat(f + tag + nl, c);
    lemma_plain_concat(f + tag + nl + c, nl);
    lemma_plain_concat(f + tag + nl + c + nl, f);
    stripped_plain(raw);
    // The response is left as it is by trimming and by think-block removal.
    assert(raw[0] == '`' && raw.last() == '`');
    lemma_trimmed_is_fixed(raw);
    let h = f + tag + nl;
    let e = c + (nl + f);
    assert(!h.contains('<'));
    lemma_absent_before(c, nl + f, "<think>"@);
    lemma_absent_after_head(h, e, "<think>"@);
    assert(raw =~= h + e);
    lemma_find_absent(raw, "<think>"@, 0);
    assert(without_think(raw) == raw);
    // The fence opens at the start.
    assert(occurs_at(raw, f, 0)) by {
        assert(raw.subrange(0, 3) =~= f);
    }
    lemma_find_least(raw, f, 0, 0);
    let after = raw.skip(3);
    let rest = nl + c + nl + f;
    assert(after =~= tag + rest);
    let untagged = if starts_with(after, "bash"@) {
        after.skip("bash"@.len() as int)
    } else if starts_with(after, "sh"@) {
        after.skip("sh"@.len() as int)
    } else {
        after
    };
    assert(untagged == rest) by {
        if k == 0 {
            assert(after =~= rest);
            assert(!starts_with(after, "bash"@)) by {
                assert(after.subrange(0, 4)[0] == after[0]);
            }
            assert(!starts_with(after, "sh"@)) by {
                assert(after.subrange(0, 2)[0] == after[0]);
            }
        } else if k == 1 {
            assert(after.subrange(0, 4) =~= "bash"@);
            assert(after.skip(4) =~= rest);
        } else {
            assert(!starts_with(after, "bash"@)) by {
                assert(after.subrange(0, 4)[0] == after[0]);
            }
            assert(after.subrange(0, 2) =~= "sh"@);
            assert(after.skip(2) =~= rest);
        }
    }
    lemma_fence_body_rest(c);
    assert(fence_body(raw) == m);
    // The command is one bare line without a lead-in.
    assert(!starts_with(lower_seq(m), lead_ins()[0]));
    assert(!starts_with(lower_seq(m), lead_ins()[1]));
    assert(!starts_with(lower_seq(m), lead_ins()[2]));
    assert(!starts_with(lower_seq(m), lead_ins()[3]));
    assert(!starts_with(lower_seq(m), lead_ins()[4]));
    assert(!starts_with(lower_seq(m), lead_ins()[5]));
    assert(!starts_with(lower_seq(m), lead_ins()[6]));
    assert(without_lead_in(m) == m);
    let rg = lemma_trim_range(c);
    lemma_subrange_lacks(c, rg.0, rg.1, '\n');
    lemma_single_command(m);
}

} // verus!
