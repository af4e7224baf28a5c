//! Character classes and sequence operations on text held as `char`s.

use vstd::prelude::*;

verus! {

/// Unicode general category Cc: U+0000..=U+001F and U+007F..=U+009F.
pub open spec fn is_control_char(c: char) -> bool {
    c <= '\u{1f}' || ('\u{7f}' <= c && c <= '\u{9f}')
}

pub fn is_control(c: char) -> (b: bool)
    ensures
        b == is_control_char(c),
{
    c <= '\u{1f}' || ('\u{7f}' <= c && c <= '\u{9f}')
}

/// The Unicode `White_Space` property.
pub open spec fn is_white_char(c: char) -> bool {
    ||| ('\u{9}' <= c && c <= '\u{d}')
    ||| c == ' '
    ||| c == '\u{85}'
    ||| c == '\u{a0}'
    ||| c == '\u{1680}'
    ||| ('\u{2000}' <= c && c <= '\u{200a}')
    ||| c == '\u{2028}'
    ||| c == '\u{2029}'
    ||| c == '\u{202f}'
    ||| c == '\u{205f}'
    ||| c == '\u{3000}'
}

pub fn is_white(c: char) -> (b: bool)
    ensures
        b == is_white_char(c),
{
    ('\u{9}' <= c && c <= '\u{d}') || c == ' ' || c == '\u{85}' || c == '\u{a0}' || c
        == '\u{1680}' || ('\u{2000}' <= c && c <= '\u{200a}') || c == '\u{2028}' || c
        == '\u{2029}' || c == '\u{202f}' || c == '\u{205f}' || c == '\u{3000}'
}

pub open spec fn is_ascii_alpha_char(c: char) -> bool {
    ('A' <= c && c <= 'Z') || ('a' <= c && c <= 'z')
}

pub open spec fn lower_char(c: char) -> char {
    if 'A' <= c && c <= 'Z' {
        ((c as u32) + 32) as char
    } else {
        c
    }
}

pub fn to_lower(c: char) -> (r: char)
    ensures
        r == lower_char(c),
{
    if 'A' <= c && c <= 'Z' {
        ((c as u8) + 32) as char
    } else {
        c
    }
}

/// The characters of `s`, in order.
pub fn chars_of(s: &str) -> (v: Vec<char>)
    ensures
        v@ == s@,
{
    let mut v: Vec<char> = Vec::new();
    for c in it: s.chars()
        invariant
            v@ == it.seq().take(it.index() as int),
            it.seq() == s@,
    {
        v.push(c);
    }
    v
}

/// `String::push`: appends one character.
#[verifier::external_body]
fn push_char(s: &mut String, c: char)
    ensures
        final(s)@ == old(s)@.push(c),
{
    s.push(c);
}

/// The string holding exactly the characters of `v`.
pub fn string_of(v: &[char]) -> (s: String)
    ensures
        s@ == v@,
{
    let mut s = String::new();
    let mut i: usize = 0;
    while i < v.len()
        invariant
            i <= v.len(),
            s@ == v@.take(i as int),
        decreases v.len() - i,
    {
        push_char(&mut s, v[i]);
        assert(v@.take(i + 1) =~= v@.take(i as int).push(v@[i as int]));
        i += 1;
    }
    assert(v@.take(v.len() as int) =~= v@);
    s
}


/// `p` stands in `s` starting at index `i`.
pub open spec fn occurs_at(s: Seq<char>, p: Seq<char>, i: int) -> bool {
    0 <= i && i + p.len() <= s.len() && s.subrange(i, i + p.len()) == p
}

pub open spec fn starts_with(s: Seq<char>, p: Seq<char>) -> bool {
    occurs_at(s, p, 0)
}

pub open spec fn ends_with(s: Seq<char>, p: Seq<char>) -> bool {
    p.len() <= s.len() && occurs_at(s, p, s.len() - p.len())
}

pub open spec fn contains_seq(s: Seq<char>, p: Seq<char>) -> bool {
    exists|i: int| occurs_at(s, p, i)
}

/// The first index at or after `from` where `p` stands in `s`.
pub open spec fn find_from(s: Seq<char>, p: Seq<char>, from: int) -> Option<int>
    decreases s.len() + 1 - from,
{
    if from < 0 || from + p.len() > s.len() {
        None
    } else if occurs_at(s, p, from) {
        Some(from)
    } else {
        find_from(s, p, from + 1)
    }
}

pub open spec fn find(s: Seq<char>, p: Seq<char>) -> Option<int> {
    find_from(s, p, 0)
}

pub fn matches_at(s: &[char], p: &[char], i: usize) -> (b: bool)
    ensures
        b == occurs_at(s@, p@, i as int),
{
    if i > s.len() || p.len() > s.len() - i {
        return false;
    }
    let mut k: usize = 0;
    while k < p.len()
        invariant
            k <= p.len(),
            i + p.len() <= s.len(),
            forall|j: int| 0 <= j < k ==> s@[i + j] == p@[j],
        decreases p.len() - k,
    {
        if s[i + k] != p[k] {
            assert(s@.subrange(i as int, i + p.len())[k as int] != p@[k as int]);
            return false;
        }
        k += 1;
    }
    assert(s@.subrange(i as int, i + p.len()) =~= p@);
    true
}

pub fn starts(s: &[char], p: &[char]) -> (b: bool)
    ensures
        b == starts_with(s@, p@),
{
    matches_at(s, p, 0)
}

pub fn ends(s: &[char], p: &[char]) -> (b: bool)
    ensures
        b == ends_with(s@, p@),
{
    if p.len() > s.len() {
        false
    } else {
        matches_at(s, p, s.len() - p.len())
    }
}

pub fn find_at(s: &[char], p: &[char], from: usize) -> (r: Option<usize>)
    ensures
        match r {
            Some(i) => find_from(s@, p@, from as int) == Some(i as int),
            None => find_from(s@, p@, from as int) is None,
        },
{
    let mut i = from;
    loop
        invariant
            from <= i,
            find_from(s@, p@, from as int) == find_from(s@, p@, i as int),
        decreases s.len() + 1 - i,
    {
        if i > s.len() || p.len() > s.len() - i {
            return None;
        }
        if matches_at(s, p, i) {
            return Some(i);
        }
        if p.len() == 0 {
            assert(s@.subrange(i as int, i as int) =~= p@);
        }
        i += 1;
    }
}

pub proof fn lemma_find_from_none(s: Seq<char>, p: Seq<char>, from: int)
    requires
        0 <= from,
        find_from(s, p, from) is None,
    ensures
        forall|i: int| from <= i ==> !occurs_at(s, p, i),
    decreases s.len() + 1 - from,
{
    if from + p.len() <= s.len() {
        lemma_find_from_none(s, p, from + 1);
    }
}

pub proof fn lemma_find_from_some(s: Seq<char>, p: Seq<char>, from: int)
    requires
        find_from(s, p, from) is Some,
    ensures
        from <= find_from(s, p, from)->0,
        occurs_at(s, p, find_from(s, p, from)->0),
        forall|i: int| from <= i < find_from(s, p, from)->0 ==> !occurs_at(s, p, i),
    decreases s.len() + 1 - from,
{
    if !occurs_at(s, p, from) {
        lemma_find_from_some(s, p, from + 1);
    }
}

pub proof fn lemma_contains_find(s: Seq<char>, p: Seq<char>)
    ensures
        contains_seq(s, p) <==> find(s, p) is Some,
{
    if find(s, p) is Some {
        lemma_find_from_some(s, p, 0);
    } else {
        lemma_find_from_none(s, p, 0);
    }
}

pub fn contains(s: &[char], p: &[char]) -> (b: bool)
    ensures
        b == contains_seq(s@, p@),
{
    proof {
        lemma_contains_find(s@, p@);
    }
    find_at(s, p, 0).is_some()
}

pub fn has_char(s: &[char], c: char) -> (b: bool)
    ensures
        b == s@.contains(c),
{
    let mut i: usize = 0;
    while i < s.len()
        invariant
            i <= s.len(),
            forall|j: int| 0 <= j < i ==> s@[j] != c,
        decreases s.len() - i,
    {
        if s[i] == c {
            return true;
        }
        i += 1;
    }
    false
}

/// The characters of `s` from `lo` up to `hi`, copied.
pub fn copy_range(s: &[char], lo: usize, hi: usize) -> (v: Vec<char>)
    requires
        lo <= hi <= s.len(),
    ensures
        v@ == s@.subrange(lo as int, hi as int),
{
    let mut v: Vec<char> = Vec::new();
    let mut i = lo;
    while i < hi
        invariant
            lo <= i <= hi <= s.len(),
            v@ == s@.subrange(lo as int, i as int),
        decreases hi - i,
    {
        v.push(s[i]);
        assert(s@.subrange(lo as int, i + 1) =~= s@.subrange(lo as int, i as int).push(s@[i as int]));
        i += 1;
    }
    v
}

pub fn same(a: &[char], b: &[char]) -> (r: bool)
    ensures
        r == (a@ == b@),
{
    if a.len() != b.len() {
        return false;
    }
    let r = matches_at(a, b, 0);
    assert(a@.subrange(0, b@.len() as int) =~= a@);
    r
}

pub open spec fn trim_start(s: Seq<char>) -> Seq<char>
    decreases s.len(),
{
    if s.len() > 0 && is_white_char(s[0]) {
        trim_start(s.drop_first())
    } else {
        s
    }
}

pub open spec fn trim_end(s: Seq<char>) -> Seq<char>
    decreases s.len(),
{
    if s.len() > 0 && is_white_char(s.last()) {
        trim_end(s.drop_last())
    } else {
        s
    }
}

/// `s` without leading and trailing white space.
pub open spec fn trim(s: Seq<char>) -> Seq<char> {
    trim_end(trim_start(s))
}

pub fn trim_chars(s: &[char]) -> (r: Vec<char>)
    ensures
        r@ == trim(s@),
{
    let mut lo: usize = 0;
    assert(s@.skip(0) =~= s@);
    while lo < s.len() && is_white(s[lo])
        invariant
            lo <= s.len(),
            trim_start(s@) == trim_start(s@.skip(lo as int)),
        decreases s.len() - lo,
    {
        assert(s@.skip(lo as int).drop_first() =~= s@.skip(lo + 1));
        lo += 1;
    }
    let ghost t = s@.skip(lo as int);
    assert(trim_start(s@) == t);
    let mut hi: usize = s.len();
    while hi > lo && is_white(s[hi - 1])
        invariant
            lo <= hi <= s.len(),
            t == s@.skip(lo as int),
            trim_end(t) == trim_end(s@.subrange(lo as int, hi as int)),
        decreases hi,
    {
        assert(s@.subrange(lo as int, hi as int).drop_last() =~= s@.subrange(lo as int, hi - 1));
        hi -= 1;
    }
    assert(s@.skip(lo as int) =~= s@.subrange(lo as int, s.len() as int));
    copy_range(s, lo, hi)
}

pub open spec fn lower_seq(s: Seq<char>) -> Seq<char> {
    s.map_values(|c: char| lower_char(c))
}

pub fn lowercase(s: &[char]) -> (r: Vec<char>)
    ensures
        r@ == lower_seq(s@),
{
    let mut r: Vec<char> = Vec::new();
    let mut i: usize = 0;
    while i < s.len()
        invariant
            i <= s.len(),
            r@ =~= lower_seq(s@.take(i as int)),
        decreases s.len() - i,
    {
        r.push(to_lower(s[i]));
        i += 1;
    }
    assert(s@.take(s.len() as int) =~= s@);
    r
}

/// The abstract contents of a sequence of character vectors.
pub open spec fn views(v: Seq<Vec<char>>) -> Seq<Seq<char>> {
    v.map_values(|x: Vec<char>| x@)
}

pub open spec fn drop_cr(line: Seq<char>) -> Seq<char> {
    if line.len() > 0 && line.last() == '\r' {
        line.drop_last()
    } else {
        line
    }
}

/// The lines of `s` from index `i` on, `done` holding the lines already ended and
/// `cur` the line under way: a line ends at `'\n'`, loses one `'\r'` before it, and
/// a last line is kept only when it is not empty.
pub open spec fn lines_from(s: Seq<char>, i: int, done: Seq<Seq<char>>, cur: Seq<char>) -> Seq<
    Seq<char>,
>
    decreases s.len() - i,
{
    if i < 0 || i >= s.len() {
        if cur.len() > 0 {
            done.push(cur)
        } else {
            done
        }
    } else if s[i] == '\n' {
        lines_from(s, i + 1, done.push(drop_cr(cur)), seq![])
    } else {
        lines_from(s, i + 1, done, cur.push(s[i]))
    }
}

pub open spec fn lines(s: Seq<char>) -> Seq<Seq<char>> {
    lines_from(s, 0, seq![], seq![])
}

pub fn split_lines(s: &[char]) -> (r: Vec<Vec<char>>)
    ensures
        views(r@) == lines(s@),
{
    let mut done: Vec<Vec<char>> = Vec::new();
    let mut cur: Vec<char> = Vec::new();
    let mut i: usize = 0;
    assert(views(done@) =~= seq![]);
    assert(cur@ =~= seq![]);
    while i < s.len()
        invariant
            i <= s.len(),
            lines(s@) == lines_from(s@, i as int, views(done@), cur@),
        decreases s.len() - i,
    {
        if s[i] == '\n' {
            if cur.len() > 0 && cur[cur.len() - 1] == '\r' {
                cur.pop();
            }
            let ghost before = views(done@);
            done.push(cur);
            assert(views(done@) =~= before.push(done@.last()@));
            cur = Vec::new();
            assert(cur@ =~= seq![]);
        } else {
            cur.push(s[i]);
        }
        i += 1;
    }
    if cur.len() > 0 {
        let ghost before = views(done@);
        done.push(cur);
        assert(views(done@) =~= before.push(done@.last()@));
    }
    done
}

/// The maximal runs of non-white characters of `s` from index `i` on.
pub open spec fn words_from(s: Seq<char>, i: int, done: Seq<Seq<char>>, cur: Seq<char>) -> Seq<
    Seq<char>,
>
    decreases s.len() - i,
{
    if i < 0 || i >= s.len() {
        if cur.len() > 0 {
            done.push(cur)
        } else {
            done
        }
    } else if is_white_char(s[i]) {
        words_from(s, i + 1, if cur.len() > 0 { done.push(cur) } else { done }, seq![])
    } else {
        words_from(s, i + 1, done, cur.push(s[i]))
    }
}

pub open spec fn white_words(s: Seq<char>) -> Seq<Seq<char>> {
    words_from(s, 0, seq![], seq![])
}

pub fn split_white(s: &[char]) -> (r: Vec<Vec<char>>)
    ensures
        views(r@) == white_words(s@),
{
    let mut done: Vec<Vec<char>> = Vec::new();
    let mut cur: Vec<char> = Vec::new();
    let mut i: usize = 0;
    assert(views(done@) =~= seq![]);
    assert(cur@ =~= seq![]);
    while i < s.len()
        invariant
            i <= s.len(),
            white_words(s@) == words_from(s@, i as int, views(done@), cur@),
        decreases s.len() - i,
    {
        if is_white(s[i]) {
            if cur.len() > 0 {
                let ghost before = views(done@);
                done.push(cur);
                assert(views(done@) =~= before.push(done@.last()@));
                cur = Vec::new();
            }
            assert(cur@ =~= seq![]);
        } else {
            cur.push(s[i]);
        }
        i += 1;
    }
    if cur.len() > 0 {
        let ghost before = views(done@);
        done.push(cur);
        assert(views(done@) =~= before.push(done@.last()@));
    }
    done
}

/// The parts joined, with `sep` between each two neighbours.
pub open spec fn join(parts: Seq<Seq<char>>, sep: Seq<char>) -> Seq<char>
    decreases parts.len(),
{
    if parts.len() == 0 {
        seq![]
    } else if parts.len() == 1 {
        parts[0]
    } else {
        join(parts.drop_last(), sep) + sep + parts.last()
    }
}

pub fn append_chars(out: &mut Vec<char>, s: &[char])
    ensures
        final(out)@ == old(out)@ + s@,
{
    let mut i: usize = 0;
    while i < s.len()
        invariant
            i <= s.len(),
            out@ == old(out)@ + s@.take(i as int),
        decreases s.len() - i,
    {
        out.push(s[i]);
        assert(s@.take(i + 1) =~= s@.take(i as int).push(s@[i as int]));
        i += 1;
    }
    assert(s@.take(s.len() as int) =~= s@);
}

pub fn join_chars(parts: &[Vec<char>], sep: &[char]) -> (r: Vec<char>)
    ensures
        r@ == join(views(parts@), sep@),
{
    assert(parts@.subrange(0, parts@.len() as int) =~= parts@);
    join_range(parts, 0, parts.len(), sep)
}

/// The parts from `lo` up to `hi`, joined with `sep`.
pub fn join_range(parts: &[Vec<char>], lo: usize, hi: usize, sep: &[char]) -> (r: Vec<char>)
    requires
        lo <= hi <= parts.len(),
    ensures
        r@ == join(views(parts@.subrange(lo as int, hi as int)), sep@),
{
    let mut out: Vec<char> = Vec::new();
    let mut i: usize = lo;
    assert(views(parts@.subrange(lo as int, lo as int)) =~= seq![]);
    while i < hi
        invariant
            lo <= i <= hi <= parts.len(),
            out@ == join(views(parts@.subrange(lo as int, i as int)), sep@),
        decreases hi - i,
    {
        assert(views(parts@.subrange(lo as int, i + 1)).drop_last() =~= views(
            parts@.subrange(lo as int, i as int),
        ));
        assert(views(parts@.subrange(lo as int, i + 1)).last() == parts@[i as int]@);
        if i > lo {
            append_chars(&mut out, sep);
        } else {
            assert(views(parts@.subrange(lo as int, i + 1)) =~= seq![parts@[i as int]@]);
        }
        append_chars(&mut out, parts[i].as_slice());
        i += 1;
    }
    out
}


pub fn is_lit(s: &[char], lit: &str) -> (b: bool)
    ensures
        b == (s@ == lit@),
{
    let l = chars_of(lit);
    same(s, l.as_slice())
}

pub fn starts_lit(s: &[char], lit: &str) -> (b: bool)
    ensures
        b == starts_with(s@, lit@),
{
    let l = chars_of(lit);
    starts(s, l.as_slice())
}

pub fn ends_lit(s: &[char], lit: &str) -> (b: bool)
    ensures
        b == ends_with(s@, lit@),
{
    let l = chars_of(lit);
    ends(s, l.as_slice())
}

pub fn contains_lit(s: &[char], lit: &str) -> (b: bool)
    ensures
        b == contains_seq(s@, lit@),
{
    let l = chars_of(lit);
    contains(s, l.as_slice())
}


proof fn lemma_trim_start_range(s: Seq<char>) -> (k: int)
    ensures
        0 <= k <= s.len(),
        trim_start(s) == s.skip(k),
        trim_start(s).len() > 0 ==> !is_white_char(trim_start(s)[0]),
    decreases s.len(),
{
    if s.len() > 0 && is_white_char(s[0]) {
        let k = lemma_trim_start_range(s.drop_first());
        assert(s.drop_first().skip(k) =~= s.skip(k + 1));
        k + 1
    } else {
        assert(s.skip(0) =~= s);
        0
    }
}

pub proof fn lemma_trim_end_range(s: Seq<char>) -> (k: int)
    ensures
        0 <= k <= s.len(),
        trim_end(s) == s.take(k),
        trim_end(s).len() > 0 ==> !is_white_char(trim_end(s).last()),
    decreases s.len(),
{
    if s.len() > 0 && is_white_char(s.last()) {
        let k = lemma_trim_end_range(s.drop_last());
        assert(s.drop_last().take(k) =~= s.take(k));
        k
    } else {
        assert(s.take(s.len() as int) =~= s);
        s.len() as int
    }
}

/// `trim(s)` is a stretch of `s`, and it begins and ends with a non-white character.
pub proof fn lemma_trim_range(s: Seq<char>) -> (r: (int, int))
    ensures
        0 <= r.0 <= r.1 <= s.len(),
        trim(s) == s.subrange(r.0, r.1),
        trim(s).len() > 0 ==> !is_white_char(trim(s)[0]) && !is_white_char(trim(s).last()),
{
    let a = lemma_trim_start_range(s);
    let t = trim_start(s);
    let b = lemma_trim_end_range(t);
    assert(t.take(b) =~= s.subrange(a, a + b));
    if trim(s).len() > 0 {
        assert(trim(s)[0] == t[0]);
    }
    (a, a + b)
}

/// A character absent from `s` is absent from every stretch of it.
pub proof fn lemma_subrange_lacks(s: Seq<char>, lo: int, hi: int, c: char)
    requires
        0 <= lo <= hi <= s.len(),
        !s.contains(c),
    ensures
        !s.subrange(lo, hi).contains(c),
{
    if s.subrange(lo, hi).contains(c) {
        let k = choose|k: int| 0 <= k < hi - lo && s.subrange(lo, hi)[k] == c;
        assert(s[lo + k] == c);
    }
}

proof fn lemma_lines_from_lack_newline(
    s: Seq<char>,
    i: int,
    done: Seq<Seq<char>>,
    cur: Seq<char>,
)
    requires
        0 <= i,
        forall|k: int| 0 <= k < done.len() ==> !(#[trigger] done[k]).contains('\n'),
        !cur.contains('\n'),
    ensures
        forall|k: int|
            0 <= k < lines_from(s, i, done, cur).len() ==> !(#[trigger] lines_from(
                s,
                i,
                done,
                cur,
            )[k]).contains('\n'),
    decreases s.len() - i,
{
    if i < s.len() {
        if s[i] == '\n' {
            let d = drop_cr(cur);
            if cur.len() > 0 && cur.last() == '\r' {
                lemma_subrange_lacks(cur, 0, cur.len() - 1, '\n');
                assert(cur.drop_last() =~= cur.subrange(0, cur.len() - 1));
            }
            let e: Seq<char> = seq![];
            assert(!e.contains('\n'));
            let nd = done.push(d);
            assert forall|k: int| 0 <= k < nd.len() implies !(#[trigger] nd[k]).contains('\n') by {
                if k < done.len() {
                    assert(nd[k] == done[k]);
                }
            }
            lemma_lines_from_lack_newline(s, i + 1, nd, e);
            assert(lines_from(s, i, done, cur) == lines_from(s, i + 1, nd, e));
        } else {
            assert forall|k: int| 0 <= k < cur.push(s[i]).len() implies cur.push(s[i])[k] != '\n' by {
                if k < cur.len() {
                    assert(cur[k] != '\n');
                }
            }
            lemma_lines_from_lack_newline(s, i + 1, done, cur.push(s[i]));
            assert(lines_from(s, i, done, cur) == lines_from(s, i + 1, done, cur.push(s[i])));
        }
    } else {
        let nd = done.push(cur);
        assert forall|k: int| 0 <= k < nd.len() implies !(#[trigger] nd[k]).contains('\n') by {
            if k < done.len() {
                assert(nd[k] == done[k]);
            }
        }
    }
}

/// No line contains a newline.
pub proof fn lemma_lines_lack_newline(s: Seq<char>)
    ensures
        forall|k: int| 0 <= k < lines(s).len() ==> !(#[trigger] lines(s)[k]).contains('\n'),
{
    let e: Seq<char> = seq![];
    assert(!e.contains('\n'));
    lemma_lines_from_lack_newline(s, 0, seq![], e);
}


/// The state `lines_from` reaches at the end of `s`: the lines ended and the
/// line under way.
pub open spec fn lines_state(s: Seq<char>, i: int, done: Seq<Seq<char>>, cur: Seq<char>) -> (
    Seq<Seq<char>>,
    Seq<char>,
)
    decreases s.len() - i,
{
    if i < 0 || i >= s.len() {
        (done, cur)
    } else if s[i] == '\n' {
        lines_state(s, i + 1, done.push(drop_cr(cur)), seq![])
    } else {
        lines_state(s, i + 1, done, cur.push(s[i]))
    }
}

pub open spec fn finish_lines(st: (Seq<Seq<char>>, Seq<char>)) -> Seq<Seq<char>> {
    if st.1.len() > 0 {
        st.0.push(st.1)
    } else {
        st.0
    }
}

pub proof fn lemma_lines_from_state(s: Seq<char>, i: int, d: Seq<Seq<char>>, c: Seq<char>)
    requires
        0 <= i,
    ensures
        lines_from(s, i, d, c) == finish_lines(lines_state(s, i, d, c)),
    decreases s.len() - i,
{
    if i < s.len() {
        if s[i] == '\n' {
            lemma_lines_from_state(s, i + 1, d.push(drop_cr(c)), seq![]);
        } else {
            lemma_lines_from_state(s, i + 1, d, c.push(s[i]));
        }
    }
}

proof fn lemma_lines_state_offset(
    x: Seq<char>,
    z: Seq<char>,
    j: int,
    d: Seq<Seq<char>>,
    c: Seq<char>,
)
    requires
        0 <= j <= z.len(),
    ensures
        lines_state(x + z, x.len() + j, d, c) == lines_state(z, j, d, c),
    decreases z.len() - j,
{
    if j < z.len() {
        assert((x + z)[x.len() + j] == z[j]);
        if z[j] == '\n' {
            lemma_lines_state_offset(x, z, j + 1, d.push(drop_cr(c)), seq![]);
        } else {
            lemma_lines_state_offset(x, z, j + 1, d, c.push(z[j]));
        }
    }
}

/// Reading `x + z` is reading `x`, then going on with `z` from where `x` left off.
pub proof fn lemma_lines_state_concat(
    x: Seq<char>,
    z: Seq<char>,
    i: int,
    d: Seq<Seq<char>>,
    c: Seq<char>,
)
    requires
        0 <= i <= x.len(),
    ensures
        lines_state(x + z, i, d, c) == lines_state(
            z,
            0,
            lines_state(x, i, d, c).0,
            lines_state(x, i, d, c).1,
        ),
    decreases x.len() - i,
{
    if i < x.len() {
        assert((x + z)[i] == x[i]);
        if x[i] == '\n' {
            lemma_lines_state_concat(x, z, i + 1, d.push(drop_cr(c)), seq![]);
        } else {
            lemma_lines_state_concat(x, z, i + 1, d, c.push(x[i]));
        }
    } else {
        lemma_lines_state_offset(x, z, 0, d, c);
    }
}

/// The lines already ended are carried along unchanged.
pub proof fn lemma_lines_state_factor(z: Seq<char>, j: int, d: Seq<Seq<char>>, c: Seq<char>)
    requires
        0 <= j,
    ensures
        lines_state(z, j, d, c).0 == d + lines_state(z, j, seq![], c).0,
        lines_state(z, j, d, c).1 == lines_state(z, j, seq![], c).1,
    decreases z.len() - j,
{
    if j < z.len() {
        if z[j] == '\n' {
            lemma_lines_state_factor(z, j + 1, d.push(drop_cr(c)), seq![]);
            lemma_lines_state_factor(z, j + 1, seq![drop_cr(c)], seq![]);
            assert(Seq::<Seq<char>>::empty().push(drop_cr(c)) =~= seq![drop_cr(c)]);
            assert(d.push(drop_cr(c)) + lines_state(z, j + 1, seq![], seq![]).0 =~= d + (seq![
                drop_cr(c),
            ] + lines_state(z, j + 1, seq![], seq![]).0));
        } else {
            lemma_lines_state_factor(z, j + 1, d, c.push(z[j]));
        }
    } else {
        assert(d + Seq::<Seq<char>>::empty() =~= d);
    }
}

/// Text without a newline only extends the line under way.
pub proof fn lemma_lines_state_no_newline(z: Seq<char>, j: int, d: Seq<Seq<char>>, c: Seq<char>)
    requires
        0 <= j <= z.len(),
        !z.contains('\n'),
    ensures
        lines_state(z, j, d, c) == (d, c + z.skip(j)),
    decreases z.len() - j,
{
    if j < z.len() {
        assert(z[j] != '\n');
        lemma_lines_state_no_newline(z, j + 1, d, c.push(z[j]));
        assert(c.push(z[j]) + z.skip(j + 1) =~= c + z.skip(j));
    } else {
        assert(c + z.skip(j) =~= c);
    }
}

/// The lines of `x`, a newline, then `y`: the lines that `x` and that newline
/// end, then the lines of `y`.
pub proof fn lemma_lines_after_newline(x: Seq<char>, y: Seq<char>)
    ensures
        lines_state(x + seq!['\n'], 0, seq![], seq![]) == (
            lines_state(x, 0, seq![], seq![]).0.push(drop_cr(lines_state(x, 0, seq![], seq![]).1)),
            Seq::<char>::empty(),
        ),
        lines(x + seq!['\n'] + y) == lines_state(x + seq!['\n'], 0, seq![], seq![]).0 + lines(y),
{
    let sx = lines_state(x, 0, seq![], seq![]);
    lemma_lines_state_concat(x, seq!['\n'], 0, seq![], seq![]);
    assert(lines_state(seq!['\n'], 0, sx.0, sx.1) == lines_state(
        seq!['\n'],
        1,
        sx.0.push(drop_cr(sx.1)),
        seq![],
    ));
    let d = sx.0.push(drop_cr(sx.1));
    lemma_lines_state_concat(x + seq!['\n'], y, 0, seq![], seq![]);
    lemma_lines_state_factor(y, 0, d, seq![]);
    lemma_lines_from_state(x + seq!['\n'] + y, 0, seq![], seq![]);
    lemma_lines_from_state(y, 0, seq![], seq![]);
    let sy = lines_state(y, 0, seq![], seq![]);
    if sy.1.len() > 0 {
        assert((d + sy.0).push(sy.1) =~= d + sy.0.push(sy.1));
    }
}

/// With no carriage return in `s` or in the line under way, the line under way
/// at the end has none either, and every line ended keeps its text.
pub proof fn lemma_lines_state_no_cr(s: Seq<char>, i: int, d: Seq<Seq<char>>, c: Seq<char>)
    requires
        0 <= i,
        !s.contains('\r'),
        !c.contains('\r'),
    ensures
        !lines_state(s, i, d, c).1.contains('\r'),
    decreases s.len() - i,
{
    if i < s.len() {
        if s[i] == '\n' {
            let e: Seq<char> = seq![];
            assert(!e.contains('\r'));
            lemma_lines_state_no_cr(s, i + 1, d.push(drop_cr(c)), e);
        } else {
            assert(s[i] != '\r');
            assert forall|k: int| 0 <= k < c.push(s[i]).len() implies c.push(s[i])[k] != '\r' by {
                if k < c.len() {
                    assert(c[k] != '\r');
                }
            }
            lemma_lines_state_no_cr(s, i + 1, d, c.push(s[i]));
        }
    }
}

/// While the line under way begins with `p` (which holds no carriage return), the
/// first line ended, or else the line under way at the end, begins with `p`.
pub proof fn lemma_lines_state_first_prefix(
    s: Seq<char>,
    i: int,
    d: Seq<Seq<char>>,
    c: Seq<char>,
    p: Seq<char>,
)
    requires
        0 <= i,
        p.len() > 0,
        p.last() != '\r',
        !s.contains('\r'),
        starts_with(c, p),
    ensures
        lines_state(s, i, d, c).0.len() > d.len() ==> starts_with(lines_state(s, i, d, c).0[d.len() as int], p),
        lines_state(s, i, d, c).0.len() == d.len() ==> starts_with(lines_state(s, i, d, c).1, p),
        lines_state(s, i, d, c).0.len() >= d.len(),
        lines_state(s, i, d, c).0.subrange(0, d.len() as int) == d,
    decreases s.len() - i,
{
    if i < s.len() {
        if s[i] == '\n' {
            let dc = drop_cr(c);
            if c.len() > 0 && c.last() == '\r' {
                if c.len() == p.len() {
                    assert(c.subrange(0, p.len() as int) =~= c);
                    assert(c.last() == p.last());
                }
                assert(dc.subrange(0, p.len() as int) =~= c.subrange(0, p.len() as int));
            }
            lemma_lines_state_keeps_done(s, i + 1, d.push(dc), seq![]);
            let r = lines_state(s, i + 1, d.push(dc), seq![]);
            let n = d.len() as int;
            assert(r.0.subrange(0, n + 1) == d.push(dc));
            assert(r.0[n] == r.0.subrange(0, n + 1)[n]);
            assert(r.0.subrange(0, n) =~= r.0.subrange(0, n + 1).subrange(0, n));
            assert(d.push(dc).subrange(0, n) =~= d);
        } else {
            assert(c.push(s[i]).subrange(0, p.len() as int) =~= c.subrange(0, p.len() as int));
            lemma_lines_state_first_prefix(s, i + 1, d, c.push(s[i]), p);
        }
    } else {
        assert(d.subrange(0, d.len() as int) =~= d);
    }
}

/// The lines already ended stay at the front.
pub proof fn lemma_lines_state_keeps_done(s: Seq<char>, i: int, d: Seq<Seq<char>>, c: Seq<char>)
    requires
        0 <= i,
    ensures
        lines_state(s, i, d, c).0.len() >= d.len(),
        lines_state(s, i, d, c).0.subrange(0, d.len() as int) == d,
{
    lemma_lines_state_factor(s, i, d, c);
    assert((d + lines_state(s, i, seq![], c).0).subrange(0, d.len() as int) =~= d);
}

proof fn lemma_trim_end_white_tail(y: Seq<char>, w: Seq<char>)
    requires
        forall|k: int| 0 <= k < w.len() ==> is_white_char(#[trigger] w[k]),
    ensures
        trim_end(y + w) == trim_end(y),
    decreases w.len(),
{
    if w.len() > 0 {
        assert((y + w).last() == w.last());
        assert((y + w).drop_last() =~= y + w.drop_last());
        lemma_trim_end_white_tail(y, w.drop_last());
    } else {
        assert(y + w =~= y);
    }
}

proof fn lemma_trim_start_white_tail(x: Seq<char>, w: Seq<char>)
    requires
        forall|k: int| 0 <= k < w.len() ==> is_white_char(#[trigger] w[k]),
    ensures
        trim_start(x).len() > 0 ==> trim_start(x + w) == trim_start(x) + w,
        trim_start(x).len() == 0 ==> trim_start(x + w).len() == 0,
    decreases x.len() + w.len(),
{
    if x.len() > 0 {
        assert((x + w)[0] == x[0]);
        if is_white_char(x[0]) {
            assert((x + w).drop_first() =~= x.drop_first() + w);
            lemma_trim_start_white_tail(x.drop_first(), w);
        }
    } else {
        assert(x + w =~= w);
        if w.len() > 0 {
            assert(w.drop_first() =~= Seq::<char>::empty() + w.drop_first());
            lemma_trim_start_white_tail(Seq::<char>::empty(), w.drop_first());
        }
    }
}

/// White space after the text is trimmed away.
pub proof fn lemma_trim_white_tail(x: Seq<char>, w: Seq<char>)
    requires
        forall|k: int| 0 <= k < w.len() ==> is_white_char(#[trigger] w[k]),
    ensures
        trim(x + w) == trim(x),
{
    lemma_trim_start_white_tail(x, w);
    if trim_start(x).len() > 0 {
        lemma_trim_end_white_tail(trim_start(x), w);
    }
}


pub open spec fn all_white(w: Seq<char>) -> bool {
    forall|k: int| 0 <= k < w.len() ==> is_white_char(#[trigger] w[k])
}

/// `s` is its leading white space followed by `trim_start(s)`.
pub proof fn lemma_trim_start_split(s: Seq<char>) -> (k: int)
    ensures
        0 <= k <= s.len(),
        trim_start(s) == s.skip(k),
        all_white(s.take(k)),
    decreases s.len(),
{
    if s.len() > 0 && is_white_char(s[0]) {
        let k = lemma_trim_start_split(s.drop_first());
        assert(s.drop_first().skip(k) =~= s.skip(k + 1));
        assert forall|j: int| 0 <= j < s.take(k + 1).len() implies is_white_char(
            #[trigger] s.take(k + 1)[j],
        ) by {
            if j > 0 {
                assert(s.take(k + 1)[j] == s.drop_first().take(k)[j - 1]);
            }
        }
        k + 1
    } else {
        assert(s.skip(0) =~= s);
        0
    }
}

/// Trimming the end of two pieces: the end of the second piece, or, when that
/// is all white space, the end of the first.
pub proof fn lemma_trim_end_concat(x: Seq<char>, y: Seq<char>)
    ensures
        trim_end(x + y) == if trim_end(y).len() > 0 {
            x + trim_end(y)
        } else {
            trim_end(x)
        },
    decreases y.len(),
{
    if y.len() > 0 {
        assert((x + y).last() == y.last());
        if is_white_char(y.last()) {
            assert((x + y).drop_last() =~= x + y.drop_last());
            lemma_trim_end_concat(x, y.drop_last());
        }
    } else {
        assert(x + y =~= x);
    }
}

pub proof fn lemma_trim_end_all_white(w: Seq<char>)
    requires
        all_white(w),
    ensures
        trim_end(w).len() == 0,
    decreases w.len(),
{
    if w.len() > 0 {
        assert(all_white(w.drop_last()));
        lemma_trim_end_all_white(w.drop_last());
    }
}

/// Leading white space does not change what trimming gives.
pub proof fn lemma_trim_white_head(w: Seq<char>, y: Seq<char>)
    requires
        all_white(w),
    ensures
        trim_start(w + y) == trim_start(y),
        trim(w + y) == trim(y),
    decreases w.len(),
{
    if w.len() > 0 {
        assert((w + y)[0] == w[0]);
        assert((w + y).drop_first() =~= w.drop_first() + y);
        assert(all_white(w.drop_first()));
        lemma_trim_white_head(w.drop_first(), y);
    } else {
        assert(w + y =~= y);
    }
}

/// `find` gives the first index at which `p` stands.
pub proof fn lemma_find_least(s: Seq<char>, p: Seq<char>, from: int, k: int)
    requires
        0 <= from <= k,
        occurs_at(s, p, k),
        forall|j: int| from <= j < k ==> !occurs_at(s, p, j),
    ensures
        find_from(s, p, from) == Some(k),
    decreases k - from,
{
    if from < k {
        lemma_find_least(s, p, from + 1, k);
    }
}

pub proof fn lemma_find_absent(s: Seq<char>, p: Seq<char>, from: int)
    requires
        0 <= from,
        forall|j: int| from <= j ==> !occurs_at(s, p, j),
    ensures
        find_from(s, p, from) is None,
    decreases s.len() + 1 - from,
{
    if from + p.len() <= s.len() {
        lemma_find_absent(s, p, from + 1);
    }
}

/// Searching past leading white space for a pattern that begins with a
/// non-white character finds it where it stands after that white space.
pub proof fn lemma_find_after_white(w: Seq<char>, x: Seq<char>, p: Seq<char>)
    requires
        all_white(w),
        p.len() > 0,
        !is_white_char(p[0]),
    ensures
        find(w + x, p) == match find(x, p) {
            Some(k) => Some(k + w.len()),
            None => None::<int>,
        },
{
    let s = w + x;
    assert forall|j: int| 0 <= j < w.len() implies !occurs_at(s, p, j) by {
        if occurs_at(s, p, j) {
            assert(s.subrange(j, j + p.len())[0] == s[j]);
            assert(s[j] == w[j]);
        }
    }
    assert forall|j: int| w.len() <= j implies occurs_at(s, p, j) == occurs_at(
        x,
        p,
        j - w.len(),
    ) by {
        if j + p.len() <= s.len() {
            assert(s.subrange(j, j + p.len()) =~= x.subrange(j - w.len(), j - w.len() + p.len()));
        }
    }
    match find(x, p) {
        Some(k) => {
            lemma_find_from_some(x, p, 0);
            assert forall|j: int| 0 <= j < k + w.len() implies !occurs_at(s, p, j) by {
                if j >= w.len() {
                    assert(!occurs_at(x, p, j - w.len()));
                }
            }
            lemma_find_least(s, p, 0, k + w.len());
        },
        None => {
            lemma_find_from_none(x, p, 0);
            assert forall|j: int| 0 <= j implies !occurs_at(s, p, j) by {
                if j >= w.len() {
                    assert(!occurs_at(x, p, j - w.len()));
                }
            }
            lemma_find_absent(s, p, 0);
        },
    }
}


pub open spec fn is_prefix(x: Seq<char>, y: Seq<char>) -> bool {
    x.len() <= y.len() && y.take(x.len() as int) == x
}

/// Whatever stands in a text stands in every text it begins.
pub proof fn lemma_contains_prefix(x: Seq<char>, y: Seq<char>, n: Seq<char>)
    requires
        is_prefix(x, y),
        contains_seq(x, n),
    ensures
        contains_seq(y, n),
{
    let i = choose|i: int| occurs_at(x, n, i);
    assert(y.subrange(i, i + n.len()) =~= x.subrange(i, i + n.len()));
    assert(occurs_at(y, n, i));
}

pub proof fn lemma_prefix_trans(x: Seq<char>, y: Seq<char>, z: Seq<char>)
    requires
        is_prefix(x, y),
        is_prefix(y, z),
    ensures
        is_prefix(x, z),
{
    assert(z.take(x.len() as int) =~= z.take(y.len() as int).take(x.len() as int));
}

/// The state `words_from` reaches at the end of `s`.
pub open spec fn words_state(s: Seq<char>, i: int, done: Seq<Seq<char>>, cur: Seq<char>) -> (
    Seq<Seq<char>>,
    Seq<char>,
)
    decreases s.len() - i,
{
    if i < 0 || i >= s.len() {
        (done, cur)
    } else if is_white_char(s[i]) {
        words_state(s, i + 1, if cur.len() > 0 { done.push(cur) } else { done }, seq![])
    } else {
        words_state(s, i + 1, done, cur.push(s[i]))
    }
}

pub proof fn lemma_words_from_state(s: Seq<char>, i: int, d: Seq<Seq<char>>, c: Seq<char>)
    requires
        0 <= i,
    ensures
        words_from(s, i, d, c) == finish_lines(words_state(s, i, d, c)),
    decreases s.len() - i,
{
    if i < s.len() {
        if is_white_char(s[i]) {
            lemma_words_from_state(s, i + 1, if c.len() > 0 { d.push(c) } else { d }, seq![]);
        } else {
            lemma_words_from_state(s, i + 1, d, c.push(s[i]));
        }
    }
}

proof fn lemma_words_state_offset(
    x: Seq<char>,
    z: Seq<char>,
    j: int,
    d: Seq<Seq<char>>,
    c: Seq<char>,
)
    requires
        0 <= j <= z.len(),
    ensures
        words_state(x + z, x.len() + j, d, c) == words_state(z, j, d, c),
    decreases z.len() - j,
{
    if j < z.len() {
        assert((x + z)[x.len() + j] == z[j]);
        if is_white_char(z[j]) {
            lemma_words_state_offset(x, z, j + 1, if c.len() > 0 { d.push(c) } else { d }, seq![]);
        } else {
            lemma_words_state_offset(x, z, j + 1, d, c.push(z[j]));
        }
    }
}

pub proof fn lemma_words_state_concat(
    x: Seq<char>,
    z: Seq<char>,
    i: int,
    d: Seq<Seq<char>>,
    c: Seq<char>,
)
    requires
        0 <= i <= x.len(),
    ensures
        words_state(x + z, i, d, c) == words_state(
            z,
            0,
            words_state(x, i, d, c).0,
            words_state(x, i, d, c).1,
        ),
    decreases x.len() - i,
{
    if i < x.len() {
        assert((x + z)[i] == x[i]);
        if is_white_char(x[i]) {
            lemma_words_state_concat(x, z, i + 1, if c.len() > 0 { d.push(c) } else { d }, seq![]);
        } else {
            lemma_words_state_concat(x, z, i + 1, d, c.push(x[i]));
        }
    } else {
        lemma_words_state_offset(x, z, 0, d, c);
    }
}

proof fn lemma_join_push(p: Seq<Seq<char>>, x: Seq<char>, sep: Seq<char>)
    ensures
        join(p.push(x), sep) == if p.len() == 0 {
            x
        } else {
            join(p, sep) + sep + x
        },
{
    assert(p.push(x).drop_last() =~= p);
    if p.len() == 0 {
        assert(p.push(x) =~= seq![x]);
    }
}

/// Reading on never takes back what the joined words already spell.
proof fn lemma_words_state_prefix(z: Seq<char>, j: int, d: Seq<Seq<char>>, c: Seq<char>)
    requires
        0 <= j,
    ensures
        is_prefix(
            join(finish_lines((d, c)), " "@),
            join(finish_lines(words_state(z, j, d, c)), " "@),
        ),
    decreases z.len() - j,
{
    let sp = " "@;
    let here = join(finish_lines((d, c)), sp);
    if j < z.len() {
        if is_white_char(z[j]) {
            let d2 = if c.len() > 0 { d.push(c) } else { d };
            let e: Seq<char> = seq![];
            assert(finish_lines((d2, e)) == finish_lines((d, c)));
            lemma_words_state_prefix(z, j + 1, d2, e);
        } else {
            let c2 = c.push(z[j]);
            let next = join(finish_lines((d, c2)), sp);
            lemma_join_push(d, c2, sp);
            lemma_join_push(d, c, sp);
            assert(is_prefix(here, next)) by {
                if c.len() > 0 {
                    if d.len() == 0 {
                        assert(next.take(here.len() as int) =~= here);
                    } else {
                        assert(next =~= (join(d, sp) + sp + c).push(z[j]));
                        assert(next.take(here.len() as int) =~= here);
                    }
                } else {
                    if d.len() == 0 {
                        assert(here.len() == 0);
                        assert(next.take(0) =~= here);
                    } else {
                        assert(next.take(here.len() as int) =~= here);
                    }
                }
            }
            lemma_words_state_prefix(z, j + 1, d, c2);
            lemma_prefix_trans(here, next, join(finish_lines(words_state(z, j + 1, d, c2)), sp));
        }
    } else {
        assert(here.take(here.len() as int) =~= here);
    }
}

/// The whitespace-normalised text of `x` begins the whitespace-normalised text
/// of `x + z`.
pub proof fn lemma_compact_prefix(x: Seq<char>, z: Seq<char>)
    ensures
        is_prefix(join(white_words(x), " "@), join(white_words(x + z), " "@)),
{
    lemma_words_from_state(x, 0, seq![], seq![]);
    lemma_words_from_state(x + z, 0, seq![], seq![]);
    lemma_words_state_concat(x, z, 0, seq![], seq![]);
    let st = words_state(x, 0, seq![], seq![]);
    lemma_words_state_prefix(z, 0, st.0, st.1);
}

} // verus!
