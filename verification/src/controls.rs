//! Removal of terminal escape and control sequences.
//!
//! The escape, CSI and OSC introducers and terminators are all ASCII, so the
//! sequences are recognised character by character.

use vstd::prelude::*;
use crate::text::{chars_of, is_ascii_alpha_char, is_control, is_control_char, string_of};

verus! {

/// Where the scanner stands within a terminal escape sequence.
#[derive(Clone, Copy, PartialEq, Eq, Structural)]
pub enum Scan {
    /// Ordinary text.
    Text,
    /// Just after an ESC.
    Escape,
    /// Inside `ESC [`, up to and including the first ASCII letter.
    Csi,
    /// Inside `ESC ]`, up to BEL or `ESC \`.
    Osc,
    /// Inside an OSC sequence, just after an ESC.
    OscEscape,
}

pub open spec fn esc() -> char {
    '\u{1b}'
}

pub open spec fn backspace() -> char {
    '\u{8}'
}

pub open spec fn bell() -> char {
    '\u{7}'
}

/// The characters that ordinary text keeps: newline, tab and every non-control.
pub open spec fn keeps(c: char) -> bool {
    c == '\n' || c == '\t' || !is_control_char(c)
}

/// A character of ordinary text: ESC opens a sequence, a backspace erases the
/// last kept character, a kept character is appended, any other control is dropped.
pub open spec fn text_step(out: Seq<char>, c: char) -> (Scan, Seq<char>) {
    if c == esc() {
        (Scan::Escape, out)
    } else if c == backspace() {
        (Scan::Text, if out.len() > 0 { out.drop_last() } else { out })
    } else if keeps(c) {
        (Scan::Text, out.push(c))
    } else {
        (Scan::Text, out)
    }
}

pub open spec fn osc_step(out: Seq<char>, c: char) -> (Scan, Seq<char>) {
    if c == bell() {
        (Scan::Text, out)
    } else if c == esc() {
        (Scan::OscEscape, out)
    } else {
        (Scan::Osc, out)
    }
}

pub open spec fn strip_step(st: Scan, out: Seq<char>, c: char) -> (Scan, Seq<char>) {
    match st {
        Scan::Text => text_step(out, c),
        Scan::Escape => if c == '[' {
            (Scan::Csi, out)
        } else if c == ']' {
            (Scan::Osc, out)
        } else {
            text_step(out, c)
        },
        Scan::Csi => if is_ascii_alpha_char(c) {
            (Scan::Text, out)
        } else {
            (Scan::Csi, out)
        },
        Scan::Osc => osc_step(out, c),
        Scan::OscEscape => if c == '\\' {
            (Scan::Text, out)
        } else {
            osc_step(out, c)
        },
    }
}

/// The text kept from `s[i..]`, starting in state `st` with `out` already kept.
pub open spec fn strip_from(s: Seq<char>, i: int, st: Scan, out: Seq<char>) -> Seq<char>
    decreases s.len() - i,
{
    if i < 0 || i >= s.len() {
        out
    } else {
        let (st2, out2) = strip_step(st, out, s[i]);
        strip_from(s, i + 1, st2, out2)
    }
}

/// `s` without its terminal control sequences, backspaces applied.
pub open spec fn stripped(s: Seq<char>) -> Seq<char> {
    strip_from(s, 0, Scan::Text, seq![])
}

pub fn strip_chars(s: &[char]) -> (r: Vec<char>)
    ensures
        r@ == stripped(s@),
{
    let mut out: Vec<char> = Vec::new();
    let mut st = Scan::Text;
    let mut i: usize = 0;
    assert(out@ =~= seq![]);
    while i < s.len()
        invariant
            i <= s.len(),
            stripped(s@) == strip_from(s@, i as int, st, out@),
        decreases s.len() - i,
    {
        let c = s[i];
        match st {
            Scan::Text | Scan::Escape => {
                if st == Scan::Escape && c == '[' {
                    st = Scan::Csi;
                } else if st == Scan::Escape && c == ']' {
                    st = Scan::Osc;
                } else if c == '\u{1b}' {
                    st = Scan::Escape;
                } else if c == '\u{8}' {
                    st = Scan::Text;
                    out.pop();
                } else {
                    st = Scan::Text;
                    if c == '\n' || c == '\t' || !is_control(c) {
                        out.push(c);
                    }
                }
            },
            Scan::Csi => {
                if ('A' <= c && c <= 'Z') || ('a' <= c && c <= 'z') {
                    st = Scan::Text;
                }
            },
            Scan::Osc | Scan::OscEscape => {
                if st == Scan::OscEscape && c == '\\' {
                    st = Scan::Text;
                } else if c == '\u{7}' {
                    st = Scan::Text;
                } else if c == '\u{1b}' {
                    st = Scan::OscEscape;
                } else {
                    st = Scan::Osc;
                }
            },
        }
        i += 1;
    }
    out
}

/// Remove terminal escape/control sequences from untrusted model output.
pub fn strip_controls(input: &str) -> (r: String)
    ensures
        r@ == stripped(input@),
{
    let s = chars_of(input);
    let r = strip_chars(s.as_slice());
    string_of(r.as_slice())
}

proof fn lemma_strip_from_keeps(s: Seq<char>, i: int, st: Scan, out: Seq<char>)
    requires
        forall|j: int| 0 <= j < out.len() ==> keeps(#[trigger] out[j]),
    ensures
        forall|j: int|
            0 <= j < strip_from(s, i, st, out).len() ==> keeps(
                #[trigger] strip_from(s, i, st, out)[j],
            ),
    decreases s.len() - i,
{
    if 0 <= i < s.len() {
        let (st2, out2) = strip_step(st, out, s[i]);
        assert forall|j: int| 0 <= j < out2.len() implies keeps(#[trigger] out2[j]) by {
            if j < out.len() {
                assert(keeps(out[j]));
            }
        }
        lemma_strip_from_keeps(s, i + 1, st2, out2);
        assert(strip_from(s, i, st, out) == strip_from(s, i + 1, st2, out2));
    }
}

proof fn lemma_strip_from_plain(s: Seq<char>, i: int, out: Seq<char>)
    requires
        0 <= i <= s.len(),
        forall|j: int| i <= j < s.len() ==> keeps(#[trigger] s[j]),
    ensures
        strip_from(s, i, Scan::Text, out) == out + s.skip(i),
    decreases s.len() - i,
{
    if i < s.len() {
        assert(keeps(s[i]));
        lemma_strip_from_plain(s, i + 1, out.push(s[i]));
        assert(out.push(s[i]) + s.skip(i + 1) =~= out + s.skip(i));
    } else {
        assert(out + s.skip(i) =~= out);
    }
}

/// Every character that `strip_controls` leaves is a newline, a tab, or not a
/// control character: no escape sequence, backspace or other control survives.
pub proof fn stripped_has_no_controls(s: Seq<char>)
    ensures
        forall|j: int|
            0 <= j < stripped(s).len() ==> keeps(#[trigger] stripped(s)[j]),
{
    lemma_strip_from_keeps(s, 0, Scan::Text, seq![]);
}

/// Stripping twice is stripping once.
pub proof fn strip_controls_idempotent(s: Seq<char>)
    ensures
        stripped(stripped(s)) == stripped(s),
{
    let t = stripped(s);
    stripped_has_no_controls(s);
    lemma_strip_from_plain(t, 0, seq![]);
    assert(Seq::<char>::empty() + t.skip(0) =~= t);
}


/// Text with no control character but newline and tab.
pub open spec fn plain(s: Seq<char>) -> bool {
    forall|i: int| 0 <= i < s.len() ==> keeps(#[trigger] s[i])
}

proof fn lemma_csi_parameters(s: Seq<char>, p: Seq<char>, j: int)
    requires
        0 <= j <= p.len(),
        s.len() >= 2 + p.len(),
        forall|k: int| 0 <= k < p.len() ==> s[2 + k] == #[trigger] p[k],
        forall|k: int| 0 <= k < p.len() ==> ('0' <= #[trigger] p[k] && p[k] <= '9') || p[k] == ';',
    ensures
        strip_from(s, 2 + j, Scan::Csi, seq![]) == strip_from(s, 2 + p.len() as int, Scan::Csi, seq![]),
    decreases p.len() - j,
{
    if j < p.len() {
        assert(s[2 + j] == p[j]);
        lemma_csi_parameters(s, p, j + 1);
    }
}

/// A CSI sequence (ESC, `[`, parameters of digits and `;`) ends at its first
/// ASCII letter, upper or lower case, and nothing of it is kept: what follows
/// the letter is kept as it stands.
pub proof fn csi_sequence_ends_at_any_ascii_letter(p: Seq<char>, x: char, t: Seq<char>)
    requires
        forall|k: int| 0 <= k < p.len() ==> ('0' <= #[trigger] p[k] && p[k] <= '9') || p[k] == ';',
        ('A' <= x && x <= 'Z') || ('a' <= x && x <= 'z'),
        plain(t),
    ensures
        stripped(seq!['\u{1b}', '['] + p + seq![x] + t) == t,
{
    let s = seq!['\u{1b}', '['] + p + seq![x] + t;
    let n = p.len() as int;
    assert(s[0] == '\u{1b}' && s[1] == '[');
    assert(stripped(s) == strip_from(s, 1, Scan::Escape, seq![]));
    assert(strip_from(s, 1, Scan::Escape, seq![]) == strip_from(s, 2, Scan::Csi, seq![]));
    assert forall|k: int| 0 <= k < p.len() implies s[2 + k] == #[trigger] p[k] by {}
    lemma_csi_parameters(s, p, 0);
    assert(s[2 + n] == x);
    assert(strip_from(s, 2 + n, Scan::Csi, seq![]) == strip_from(s, 3 + n, Scan::Text, seq![]));
    assert forall|j: int| 3 + n <= j < s.len() implies keeps(#[trigger] s[j]) by {
        assert(s[j] == t[j - 3 - n]);
    }
    lemma_strip_from_plain(s, 3 + n, seq![]);
    assert(Seq::<char>::empty() + s.skip(3 + n) =~= t);
}

/// Plain text is left as it is.
pub proof fn stripped_plain(s: Seq<char>)
    requires
        plain(s),
    ensures
        stripped(s) == s,
{
    lemma_strip_from_plain(s, 0, seq![]);
    assert(Seq::<char>::empty() + s.skip(0) =~= s);
}

pub proof fn lemma_plain_concat(x: Seq<char>, y: Seq<char>)
    requires
        plain(x),
        plain(y),
    ensures
        plain(x + y),
{
    assert forall|i: int| 0 <= i < (x + y).len() implies keeps(#[trigger] (x + y)[i]) by {
        if i < x.len() {
            assert(keeps(x[i]));
        } else {
            assert(keeps(y[i - x.len()]));
        }
    }
}

/// Kept characters up to index `n` are appended as they stand.
proof fn lemma_strip_from_plain_upto(s: Seq<char>, i: int, n: int, out: Seq<char>)
    requires
        0 <= i <= n <= s.len(),
        forall|j: int| i <= j < n ==> keeps(#[trigger] s[j]) && s[j] != esc() && s[j] != backspace(),
    ensures
        strip_from(s, i, Scan::Text, out) == strip_from(s, n, Scan::Text, out + s.subrange(i, n)),
    decreases n - i,
{
    if i < n {
        assert(keeps(s[i]) && s[i] != esc() && s[i] != backspace());
        lemma_strip_from_plain_upto(s, i + 1, n, out.push(s[i]));
        assert(out.push(s[i]) + s.subrange(i + 1, n) =~= out + s.subrange(i, n));
    } else {
        assert(out + s.subrange(i, n) =~= out);
    }
}

/// The rest of an OSC body without BEL or ESC is skipped.
proof fn lemma_osc_body(s: Seq<char>, i: int, n: int)
    requires
        0 <= i <= n <= s.len(),
        forall|j: int| i <= j < n ==> #[trigger] s[j] != bell() && s[j] != esc(),
    ensures
        strip_from(s, i, Scan::Osc, seq![]) == strip_from(s, n, Scan::Osc, seq![]),
    decreases n - i,
{
    if i < n {
        assert(s[i] != bell() && s[i] != esc());
        lemma_osc_body(s, i + 1, n);
    }
}

/// An OSC sequence (ESC, `]`, a body without BEL or ESC) ends at BEL or at
/// `ESC \`, and nothing of it is kept: what follows is kept as it stands.
pub proof fn osc_sequences_are_dropped(b: Seq<char>, bell_ends: bool, t: Seq<char>)
    requires
        forall|k: int| 0 <= k < b.len() ==> #[trigger] b[k] != '\u{7}' && b[k] != '\u{1b}',
        plain(t),
    ensures
        stripped(seq!['\u{1b}', ']'] + b + (if bell_ends {
            seq!['\u{7}']
        } else {
            seq!['\u{1b}', '\\']
        }) + t) == t,
{
    let term: Seq<char> = if bell_ends {
        seq!['\u{7}']
    } else {
        seq!['\u{1b}', '\\']
    };
    let s = seq!['\u{1b}', ']'] + b + term + t;
    let n = b.len() as int;
    assert(s[0] == '\u{1b}' && s[1] == ']');
    assert(stripped(s) == strip_from(s, 1, Scan::Escape, seq![]));
    assert(strip_from(s, 1, Scan::Escape, seq![]) == strip_from(s, 2, Scan::Osc, seq![]));
    assert forall|j: int| 2 <= j < 2 + n implies #[trigger] s[j] != bell() && s[j] != esc() by {
        assert(s[j] == b[j - 2]);
    }
    lemma_osc_body(s, 2, 2 + n);
    let m = 2 + n + term.len();
    if bell_ends {
        assert(s[2 + n] == bell());
    } else {
        assert(s[2 + n] == esc());
        assert(s[3 + n] == '\\');
        assert(strip_from(s, 3 + n, Scan::OscEscape, seq![]) == strip_from(s, m, Scan::Text, seq![]));
    }
    assert(strip_from(s, 2 + n, Scan::Osc, seq![]) == strip_from(s, m, Scan::Text, seq![]));
    assert forall|j: int| m <= j < s.len() implies keeps(#[trigger] s[j]) by {
        assert(s[j] == t[j - m]);
    }
    lemma_strip_from_plain(s, m, seq![]);
    assert(Seq::<char>::empty() + s.skip(m) =~= t);
}

/// An ESC that opens neither a CSI nor an OSC sequence is dropped alone: what
/// follows it is kept as it stands.
pub proof fn a_lone_escape_is_dropped(t: Seq<char>)
    requires
        plain(t),
        t.len() > 0 ==> t[0] != '[' && t[0] != ']',
    ensures
        stripped(seq!['\u{1b}'] + t) == t,
{
    let s = seq!['\u{1b}'] + t;
    assert(s[0] == '\u{1b}');
    if t.len() > 0 {
        assert(s[1] == t[0]);
        assert(keeps(t[0]));
        assert(strip_from(s, 1, Scan::Escape, seq![]) == strip_from(s, 2, Scan::Text, seq![t[0]]));
        assert forall|j: int| 2 <= j < s.len() implies keeps(#[trigger] s[j]) by {
            assert(s[j] == t[j - 1]);
        }
        lemma_strip_from_plain(s, 2, seq![t[0]]);
        assert(seq![t[0]] + s.skip(2) =~= t);
    } else {
        assert(stripped(s) == strip_from(s, 1, Scan::Escape, seq![]));
    }
}

/// A backspace erases the last character kept before it: plain text, a
/// backspace and more plain text give the first text without its last
/// character, then the second.
pub proof fn a_backspace_erases_the_last_character(t: Seq<char>, u: Seq<char>)
    requires
        plain(t),
        plain(u),
    ensures
        stripped(t + seq!['\u{8}'] + u) == (if t.len() > 0 {
            t.drop_last()
        } else {
            t
        }) + u,
{
    let s = t + seq!['\u{8}'] + u;
    let n = t.len() as int;
    assert forall|j: int| 0 <= j < n implies keeps(#[trigger] s[j]) && s[j] != esc() && s[j]
        != backspace() by {
        assert(s[j] == t[j]);
        assert(keeps(t[j]));
    }
    lemma_strip_from_plain_upto(s, 0, n, seq![]);
    assert(Seq::<char>::empty() + s.subrange(0, n) =~= t);
    assert(s[n] == backspace());
    let kept = if t.len() > 0 {
        t.drop_last()
    } else {
        t
    };
    assert(strip_from(s, n, Scan::Text, t) == strip_from(s, n + 1, Scan::Text, kept));
    assert forall|j: int| n + 1 <= j < s.len() implies keeps(#[trigger] s[j]) by {
        assert(s[j] == u[j - n - 1]);
    }
    lemma_strip_from_plain(s, n + 1, kept);
    assert(s.skip(n + 1) =~= u);
}

} // verus!
