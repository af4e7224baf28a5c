//! Command-line options.

use vstd::prelude::*;
use crate::text::{append_chars, chars_of, is_lit, starts_lit, starts_with, string_of};

verus! {

pub open spec fn is_digit(c: char) -> bool {
    '0' <= c && c <= '9'
}

pub open spec fn all_digits(s: Seq<char>) -> bool {
    forall|i: int| 0 <= i < s.len() ==> is_digit(#[trigger] s[i])
}

/// The number the decimal digits `s` denote.
pub open spec fn decimal_value(s: Seq<char>) -> nat
    decreases s.len(),
{
    if s.len() == 0 {
        0
    } else {
        decimal_value(s.drop_last()) * 10 + ((s.last() as u32) - ('0' as u32)) as nat
    }
}

/// `usize`'s reading of decimal text: an optional `+`, then one or more digits
/// whose value fits in a `usize`.
pub open spec fn parse_usize_spec(s: Seq<char>) -> Option<nat> {
    let digits = if s.len() > 0 && s[0] == '+' {
        s.drop_first()
    } else {
        s
    };
    if digits.len() > 0 && all_digits(digits) && decimal_value(digits) <= usize::MAX {
        Some(decimal_value(digits))
    } else {
        None
    }
}

proof fn lemma_decimal_value_grows(s: Seq<char>, i: int, j: int)
    requires
        0 <= i <= j <= s.len(),
        all_digits(s),
    ensures
        decimal_value(s.take(i)) <= decimal_value(s.take(j)),
    decreases j - i,
{
    if i < j {
        lemma_decimal_value_grows(s, i, j - 1);
        assert(s.take(j).drop_last() =~= s.take(j - 1));
    }
}

pub fn parse_usize(s: &[char]) -> (r: Option<usize>)
    ensures
        match r {
            Some(v) => parse_usize_spec(s@) == Some(v as nat),
            None => parse_usize_spec(s@) is None,
        },
{
    let start: usize = if s.len() > 0 && s[0] == '+' {
        1
    } else {
        0
    };
    let ghost digits = s@.skip(start as int);
    assert(digits =~= (if s@.len() > 0 && s@[0] == '+' { s@.drop_first() } else { s@ }));
    if start >= s.len() {
        return None;
    }
    let mut v: usize = 0;
    let mut i: usize = start;
    assert(digits.take(0) =~= seq![]);
    while i < s.len()
        invariant
            start <= i <= s.len(),
            digits == s@.skip(start as int),
            digits == (if s@.len() > 0 && s@[0] == '+' { s@.drop_first() } else { s@ }),
            digits.len() > 0,
            v == decimal_value(digits.take(i - start)),
            forall|k: int| 0 <= k < i - start ==> is_digit(#[trigger] digits[k]),
        decreases s.len() - i,
    {
        let c = s[i];
        assert(digits[i - start] == c);
        if !('0' <= c && c <= '9') {
            assert(!is_digit(digits[i - start]));
            return None;
        }
        let d = (c as u32 - '0' as u32) as usize;
        assert(digits.take(i - start + 1).drop_last() =~= digits.take(i - start));
        if v > (usize::MAX - d) / 10 {
            proof {
                if all_digits(digits) {
                    lemma_decimal_value_grows(digits, i - start + 1, digits.len() as int);
                    assert(digits.take(digits.len() as int) =~= digits);
                    assert(v * 10 + d > usize::MAX) by (nonlinear_arith)
                        requires
                            v > (usize::MAX - d) / 10,
                            d <= 9,
                    ;
                }
            }
            return None;
        }
        assert(v * 10 + d <= usize::MAX) by (nonlinear_arith)
            requires
                v <= (usize::MAX - d) / 10,
                d <= 9,
        ;
        v = v * 10 + d;
        i += 1;
    }
    assert(digits.take(digits.len() as int) =~= digits);
    Some(v)
}

/// The parsed command line, as plain values.
#[verifier::ext_equal]
pub struct OptionsView {
    pub execute: bool,
    pub quiet: bool,
    pub timing: bool,
    pub count: nat,
    pub threads: nat,
    pub words: Seq<Seq<char>>,
}

#[derive(Debug)]
pub struct Options {
    pub execute: bool,
    pub quiet: bool,
    pub timing: bool,
    pub count: usize,
    pub threads: usize,
    pub words: Vec<String>,
}

pub open spec fn string_views(v: Seq<String>) -> Seq<Seq<char>> {
    v.map_values(|s: String| s@)
}

impl View for Options {
    type V = OptionsView;

    open spec fn view(&self) -> OptionsView {
        OptionsView {
            execute: self.execute,
            quiet: self.quiet,
            timing: self.timing,
            count: self.count as nat,
            threads: self.threads as nat,
            words: string_views(self.words@),
        }
    }
}

pub open spec fn is_number_flag(a: Seq<char>) -> bool {
    a == "-n"@ || a == "--num"@ || a == "--threads"@
}

/// The options that `args[i..]` give on top of `o`: flags are read up to the
/// first word that is not one (or up to `--`), and every argument from there on
/// is the request.
pub open spec fn parse_from(args: Seq<Seq<char>>, i: int, o: OptionsView) -> Result<
    OptionsView,
    Seq<char>,
>
    decreases args.len() - i,
{
    if i < 0 || i >= args.len() {
        Ok(o)
    } else {
        let a = args[i];
        if a == "-e"@ || a == "--execute"@ {
            parse_from(args, i + 1, OptionsView { execute: true, ..o })
        } else if a == "-q"@ || a == "--quiet"@ {
            parse_from(args, i + 1, OptionsView { quiet: true, ..o })
        } else if a == "-t"@ || a == "--timing"@ {
            parse_from(args, i + 1, OptionsView { timing: true, ..o })
        } else if a == "--"@ {
            Ok(OptionsView { words: o.words + args.skip(i + 1), ..o })
        } else if is_number_flag(a) {
            if i + 1 >= args.len() {
                Err(a + " needs a number"@)
            } else {
                match parse_usize_spec(args[i + 1]) {
                    Some(v) => if v == 0 {
                        Err(a + " needs a positive number"@)
                    } else if a == "--threads"@ {
                        parse_from(args, i + 2, OptionsView { threads: v, ..o })
                    } else {
                        parse_from(args, i + 2, OptionsView { count: v, ..o })
                    },
                    None => Err(a + " needs a positive number"@),
                }
            }
        } else if starts_with(a, "-n"@) && all_digits(a.skip(2)) {
            match parse_usize_spec(a.skip(2)) {
                Some(v) => if v == 0 {
                    Err("-n needs a positive number"@)
                } else {
                    parse_from(args, i + 1, OptionsView { count: v, ..o })
                },
                None => Err("-n needs a positive number"@),
            }
        } else {
            Ok(OptionsView { words: o.words + args.skip(i), ..o })
        }
    }
}

pub open spec fn initial_options(default_threads: nat) -> OptionsView {
    OptionsView {
        execute: false,
        quiet: false,
        timing: false,
        count: 1,
        threads: default_threads,
        words: seq![],
    }
}

pub open spec fn parsed(args: Seq<Seq<char>>, default_threads: nat) -> Result<
    OptionsView,
    Seq<char>,
> {
    parse_from(args, 0, initial_options(default_threads))
}

fn message(subject: &[char], rest: &str) -> (r: String)
    ensures
        r@ == subject@ + rest@,
{
    let mut m: Vec<char> = Vec::new();
    append_chars(&mut m, subject);
    let tail = chars_of(rest);
    append_chars(&mut m, tail.as_slice());
    assert(m@ =~= subject@ + rest@);
    string_of(m.as_slice())
}

fn rest_of(args: &Vec<String>, from: usize) -> (r: Vec<String>)
    requires
        from <= args.len(),
    ensures
        string_views(r@) == string_views(args@).skip(from as int),
{
    let mut r: Vec<String> = Vec::new();
    let mut k = from;
    while k < args.len()
        invariant
            from <= k <= args.len(),
            string_views(r@) =~= string_views(args@).subrange(from as int, k as int),
        decreases args.len() - k,
    {
        let ghost before = r@;
        let a = args[k].clone();
        assert(a@ == args@[k as int]@);
        r.push(a);
        assert(string_views(r@) =~= string_views(before).push(args@[k as int]@));
        k += 1;
    }
    r
}

/// Read the options that come before the request; the request is every
/// argument from the first one that is not an option.
pub fn parse_args(args: Vec<String>, default_threads: usize) -> (r: Result<Options, String>)
    ensures
        match r {
            Ok(o) => parsed(string_views(args@), default_threads as nat) == Ok::<
                OptionsView,
                Seq<char>,
            >(o@),
            Err(e) => parsed(string_views(args@), default_threads as nat) == Err::<
                OptionsView,
                Seq<char>,
            >(e@),
        },
{
    let ghost av = string_views(args@);
    let mut out = Options {
        execute: false,
        quiet: false,
        timing: false,
        count: 1,
        threads: default_threads,
        words: Vec::new(),
    };
    assert(out@ =~= initial_options(default_threads as nat));
    let mut i: usize = 0;
    while i < args.len()
        invariant
            i <= args.len(),
            av == string_views(args@),
            out.words@.len() == 0,
            parsed(av, default_threads as nat) == parse_from(av, i as int, out@),
        decreases args.len() - i,
    {
        let a = chars_of(args[i].as_str());
        assert(a@ == av[i as int]);
        let s = a.as_slice();
        if is_lit(s, "-e") || is_lit(s, "--execute") {
            out.execute = true;
            i += 1;
        } else if is_lit(s, "-q") || is_lit(s, "--quiet") {
            out.quiet = true;
            i += 1;
        } else if is_lit(s, "-t") || is_lit(s, "--timing") {
            out.timing = true;
            i += 1;
        } else if is_lit(s, "--") {
            out.words = rest_of(&args, i + 1);
            assert(out@.words =~= seq![] + av.skip(i + 1));
            return Ok(out);
        } else if is_lit(s, "-n") || is_lit(s, "--num") || is_lit(s, "--threads") {
            if i + 1 >= args.len() {
                return Err(message(s, " needs a number"));
            }
            let v = chars_of(args[i + 1].as_str());
            assert(v@ == av[i + 1]);
            match parse_usize(v.as_slice()) {
                None => {
                    return Err(message(s, " needs a positive number"));
                },
                Some(n) => {
                    if n == 0 {
                        return Err(message(s, " needs a positive number"));
                    }
                    if is_lit(s, "--threads") {
                        out.threads = n;
                    } else {
                        out.count = n;
                    }
                },
            }
            i += 2;
        } else if starts_lit(s, "-n") && {
            proof {
                reveal_strlit("-n");
            }
            all_ascii_digits_from(s, 2)
        } {
            let digits = crate::text::copy_range(s, 2, s.len());
            assert(digits@ =~= a@.skip(2));
            match parse_usize(digits.as_slice()) {
                Some(n) => {
                    if n == 0 {
                        return Err(string_of(chars_of("-n needs a positive number").as_slice()));
                    }
                    out.count = n;
                },
                None => {
                    return Err(string_of(chars_of("-n needs a positive number").as_slice()));
                },
            }
            i += 1;
        } else {
            out.words = rest_of(&args, i);
            assert(out@.words =~= seq![] + av.skip(i as int));
            return Ok(out);
        }
    }
    Ok(out)
}

fn all_ascii_digits_from(s: &[char], from: usize) -> (b: bool)
    requires
        from <= s.len(),
    ensures
        b == all_digits(s@.skip(from as int)),
{
    let mut k = from;
    while k < s.len()
        invariant
            from <= k <= s.len(),
            forall|j: int| from <= j < k ==> is_digit(#[trigger] s@[j]),
        decreases s.len() - k,
    {
        if !('0' <= s[k] && s[k] <= '9') {
            assert(!is_digit(s@.skip(from as int)[k - from]));
            return false;
        }
        k += 1;
    }
    assert forall|j: int| 0 <= j < s@.skip(from as int).len() implies is_digit(
        #[trigger] s@.skip(from as int)[j],
    ) by {
        assert(s@.skip(from as int)[j] == s@[from + j]);
    }
    true
}


proof fn lemma_parse_from(args: Seq<Seq<char>>, i: int, o: OptionsView) -> (k: int)
    requires
        0 <= i <= args.len(),
        o.words.len() == 0,
        o.count >= 1,
        o.threads >= 1,
    ensures
        parse_from(args, i, o) matches Ok(r) ==> {
            &&& r.count >= 1
            &&& r.threads >= 1
            &&& i <= k <= args.len()
            &&& r.words == args.skip(k)
        },
    decreases args.len() - i,
{
    if i < args.len() {
        let a = args[i];
        if a == "-e"@ || a == "--execute"@ {
            lemma_parse_from(args, i + 1, OptionsView { execute: true, ..o })
        } else if a == "-q"@ || a == "--quiet"@ {
            lemma_parse_from(args, i + 1, OptionsView { quiet: true, ..o })
        } else if a == "-t"@ || a == "--timing"@ {
            lemma_parse_from(args, i + 1, OptionsView { timing: true, ..o })
        } else if a == "--"@ {
            assert(o.words + args.skip(i + 1) =~= args.skip(i + 1));
            i + 1
        } else if is_number_flag(a) {
            if i + 1 < args.len() {
                match parse_usize_spec(args[i + 1]) {
                    Some(v) => if v != 0 {
                        if a == "--threads"@ {
                            lemma_parse_from(args, i + 2, OptionsView { threads: v, ..o })
                        } else {
                            lemma_parse_from(args, i + 2, OptionsView { count: v, ..o })
                        }
                    } else {
                        i
                    },
                    None => i,
                }
            } else {
                i
            }
        } else if starts_with(a, "-n"@) && all_digits(a.skip(2)) {
            match parse_usize_spec(a.skip(2)) {
                Some(v) => if v != 0 {
                    lemma_parse_from(args, i + 1, OptionsView { count: v, ..o })
                } else {
                    i
                },
                None => i,
            }
        } else {
            assert(o.words + args.skip(i) =~= args.skip(i));
            i
        }
    } else {
        assert(o.words =~= args.skip(args.len() as int));
        args.len() as int
    }
}

/// Options count only before the request: the request words are always the
/// arguments from some point on, unchanged and in order; the candidate count
/// and the thread count are always positive.
pub proof fn parse_args_keeps_request_verbatim(args: Seq<Seq<char>>, default_threads: nat)
    requires
        default_threads >= 1,
    ensures
        parsed(args, default_threads) matches Ok(o) ==> {
            &&& o.count >= 1
            &&& o.threads >= 1
            &&& exists|k: int| 0 <= k <= args.len() && o.words == args.skip(k)
        },
{
    let k = lemma_parse_from(args, 0, initial_options(default_threads));
    if parsed(args, default_threads) is Ok {
        assert(parsed(args, default_threads)->Ok_0.words == args.skip(k));
    }
}

/// The same options, with `more` appended to the request words.
pub open spec fn with_more_words(o: OptionsView, more: Seq<Seq<char>>) -> OptionsView {
    OptionsView { words: o.words + more, ..o }
}

proof fn lemma_parse_from_extends(
    args: Seq<Seq<char>>,
    more: Seq<Seq<char>>,
    i: int,
    o: OptionsView,
)
    requires
        0 <= i <= args.len(),
        o.words.len() == 0,
    ensures
        parse_from(args, i, o) is Ok && parse_from(args, i, o)->Ok_0.words.len() > 0 ==> parse_from(
            args + more,
            i,
            o,
        ) == Ok::<OptionsView, Seq<char>>(
            with_more_words(parse_from(args, i, o)->Ok_0, more),
        ),
    decreases args.len() - i,
{
    let all = args + more;
    if i < args.len() {
        let a = args[i];
        assert(all[i] == a);
        if a == "-e"@ || a == "--execute"@ {
            lemma_parse_from_extends(args, more, i + 1, OptionsView { execute: true, ..o });
        } else if a == "-q"@ || a == "--quiet"@ {
            lemma_parse_from_extends(args, more, i + 1, OptionsView { quiet: true, ..o });
        } else if a == "-t"@ || a == "--timing"@ {
            lemma_parse_from_extends(args, more, i + 1, OptionsView { timing: true, ..o });
        } else if a == "--"@ {
            assert(o.words + all.skip(i + 1) =~= (o.words + args.skip(i + 1)) + more);
        } else if is_number_flag(a) {
            if i + 1 < args.len() {
                assert(all[i + 1] == args[i + 1]);
                match parse_usize_spec(args[i + 1]) {
                    Some(v) => if v != 0 {
                        if a == "--threads"@ {
                            lemma_parse_from_extends(
                                args,
                                more,
                                i + 2,
                                OptionsView { threads: v, ..o },
                            );
                        } else {
                            lemma_parse_from_extends(args, more, i + 2, OptionsView { count: v, ..o });
                        }
                    },
                    None => {},
                }
            }
        } else if starts_with(a, "-n"@) && all_digits(a.skip(2)) {
            match parse_usize_spec(a.skip(2)) {
                Some(v) => if v != 0 {
                    lemma_parse_from_extends(args, more, i + 1, OptionsView { count: v, ..o });
                },
                None => {},
            }
        } else {
            assert(o.words + all.skip(i) =~= (o.words + args.skip(i)) + more);
        }
    }
}

/// Once the request has begun, every later argument belongs to it: appending
/// arguments to a command line that already holds a request leaves the options
/// as they were and appends the arguments to the request words.
pub proof fn later_arguments_only_extend_the_request(
    args: Seq<Seq<char>>,
    more: Seq<Seq<char>>,
    default_threads: nat,
)
    ensures
        parsed(args, default_threads) is Ok && parsed(args, default_threads)->Ok_0.words.len() > 0
            ==> parsed(args + more, default_threads) == Ok::<OptionsView, Seq<char>>(
            with_more_words(parsed(args, default_threads)->Ok_0, more),
        ),
{
    lemma_parse_from_extends(args, more, 0, initial_options(default_threads));
}

/// Half the CPUs (rounded up), at least one and at most four; two CPUs are
/// assumed when their number is unknown.
pub open spec fn default_threads_spec(available: Option<usize>) -> nat {
    let n = match available {
        Some(n) => n as nat,
        None => 2,
    };
    let half = n / 2 + n % 2;
    if half < 1 {
        1
    } else if half > 4 {
        4
    } else {
        half
    }
}

pub fn default_threads(available: Option<usize>) -> (r: usize)
    ensures
        r as nat == default_threads_spec(available),
        1 <= r <= 4,
{
    let n = match available {
        Some(n) => n,
        None => 2,
    };
    let half = n / 2 + n % 2;
    if half < 1 {
        1
    } else if half > 4 {
        4
    } else {
        half
    }
}

/// Arguments in front of index `x.len() + i` play no part in what is read from there.
proof fn lemma_parse_from_shift(x: Seq<Seq<char>>, y: Seq<Seq<char>>, i: int, o: OptionsView)
    requires
        0 <= i <= y.len(),
    ensures
        parse_from(x + y, x.len() + i, o) == parse_from(y, i, o),
    decreases y.len() - i,
{
    let all = x + y;
    let n = x.len() as int;
    if i < y.len() {
        let a = y[i];
        assert(all[n + i] == a);
        if i + 1 < y.len() {
            assert(all[n + i + 1] == y[i + 1]);
        }
        assert(all.skip(n + i + 1) =~= y.skip(i + 1));
        assert(all.skip(n + i) =~= y.skip(i));
        if a == "-e"@ || a == "--execute"@ {
            lemma_parse_from_shift(x, y, i + 1, OptionsView { execute: true, ..o });
        } else if a == "-q"@ || a == "--quiet"@ {
            lemma_parse_from_shift(x, y, i + 1, OptionsView { quiet: true, ..o });
        } else if a == "-t"@ || a == "--timing"@ {
            lemma_parse_from_shift(x, y, i + 1, OptionsView { timing: true, ..o });
        } else if a == "--"@ {
        } else if is_number_flag(a) {
            if i + 1 < y.len() {
                match parse_usize_spec(y[i + 1]) {
                    Some(v) => if v != 0 {
                        if a == "--threads"@ {
                            lemma_parse_from_shift(x, y, i + 2, OptionsView { threads: v, ..o });
                        } else {
                            lemma_parse_from_shift(x, y, i + 2, OptionsView { count: v, ..o });
                        }
                    },
                    None => {},
                }
            }
        } else if starts_with(a, "-n"@) && all_digits(a.skip(2)) {
            match parse_usize_spec(a.skip(2)) {
                Some(v) => if v != 0 {
                    lemma_parse_from_shift(x, y, i + 1, OptionsView { count: v, ..o });
                },
                None => {},
            }
        }
    }
}

/// The switches, each in its short and its long form: `-e`/`--execute`,
/// `-q`/`--quiet`, `-t`/`--timing`.
pub open spec fn switches() -> Seq<(Seq<char>, Seq<char>)> {
    seq![("-e"@, "--execute"@), ("-q"@, "--quiet"@), ("-t"@, "--timing"@)]
}

/// `o` with the option of switch `k` turned on.
pub open spec fn switched(o: OptionsView, k: int) -> OptionsView {
    if k == 0 {
        OptionsView { execute: true, ..o }
    } else if k == 1 {
        OptionsView { quiet: true, ..o }
    } else {
        OptionsView { timing: true, ..o }
    }
}

pub open spec fn switched_result(r: Result<OptionsView, Seq<char>>, k: int) -> Result<
    OptionsView,
    Seq<char>,
> {
    match r {
        Ok(o) => Ok(switched(o, k)),
        Err(e) => Err(e),
    }
}

/// A switch turned on before reading stays on, and changes nothing else.
proof fn lemma_parse_from_switched(args: Seq<Seq<char>>, i: int, o: OptionsView, k: int)
    requires
        0 <= i <= args.len(),
    ensures
        parse_from(args, i, switched(o, k)) == switched_result(parse_from(args, i, o), k),
    decreases args.len() - i,
{
    if i < args.len() {
        let a = args[i];
        let so = switched(o, k);
        if a == "-e"@ || a == "--execute"@ {
            let p = OptionsView { execute: true, ..o };
            assert(OptionsView { execute: true, ..so } == switched(p, k));
            lemma_parse_from_switched(args, i + 1, p, k);
        } else if a == "-q"@ || a == "--quiet"@ {
            let p = OptionsView { quiet: true, ..o };
            assert(OptionsView { quiet: true, ..so } == switched(p, k));
            lemma_parse_from_switched(args, i + 1, p, k);
        } else if a == "-t"@ || a == "--timing"@ {
            let p = OptionsView { timing: true, ..o };
            assert(OptionsView { timing: true, ..so } == switched(p, k));
            lemma_parse_from_switched(args, i + 1, p, k);
        } else if a == "--"@ {
        } else if is_number_flag(a) {
            if i + 1 < args.len() {
                match parse_usize_spec(args[i + 1]) {
                    Some(v) => if v != 0 {
                        if a == "--threads"@ {
                            let p = OptionsView { threads: v, ..o };
                            assert(OptionsView { threads: v, ..so } == switched(p, k));
                            lemma_parse_from_switched(args, i + 2, p, k);
                        } else {
                            let p = OptionsView { count: v, ..o };
                            assert(OptionsView { count: v, ..so } == switched(p, k));
                            lemma_parse_from_switched(args, i + 2, p, k);
                        }
                    },
                    None => {},
                }
            }
        } else if starts_with(a, "-n"@) && all_digits(a.skip(2)) {
            match parse_usize_spec(a.skip(2)) {
                Some(v) => if v != 0 {
                    let p = OptionsView { count: v, ..o };
                    assert(OptionsView { count: v, ..so } == switched(p, k));
                    lemma_parse_from_switched(args, i + 1, p, k);
                },
                None => {},
            }
        }
    }
}

/// A switch in front of the arguments turns its option on and changes nothing
/// else: `-e`/`--execute`, `-q`/`--quiet` or `-t`/`--timing`, then any
/// arguments, parse as those arguments do with that option on, and fail where
/// they fail, with the same message.
pub proof fn a_switch_turns_its_option_on(
    k: int,
    long: bool,
    rest: Seq<Seq<char>>,
    default_threads: nat,
)
    requires
        0 <= k < switches().len(),
    ensures
        parsed(
            seq![if long { switches()[k].1 } else { switches()[k].0 }] + rest,
            default_threads,
        ) == switched_result(parsed(rest, default_threads), k),
{
    reveal_strlit("-e");
    reveal_strlit("--execute");
    reveal_strlit("-q");
    reveal_strlit("--quiet");
    reveal_strlit("-t");
    reveal_strlit("--timing");
    let s = if long {
        switches()[k].1
    } else {
        switches()[k].0
    };
    let x = seq![s];
    let all = x + rest;
    let init = initial_options(default_threads);
    assert(all[0] == s);
    if k != 0 {
        assert(s != "-e"@ && s != "--execute"@) by {
            if long {
                assert(s.len() != "-e"@.len());
                assert(s[2] != "--execute"@[2]);
            } else {
                assert(s[1] != "-e"@[1]);
                assert(s.len() != "--execute"@.len());
            }
        }
    }
    if k == 2 {
        assert(s != "-q"@ && s != "--quiet"@) by {
            if long {
                assert(s.len() != "-q"@.len());
                assert(s[2] != "--quiet"@[2]);
            } else {
                assert(s[1] != "-q"@[1]);
                assert(s.len() != "--quiet"@.len());
            }
        }
    }
    assert(parsed(all, default_threads) == parse_from(all, 1, switched(init, k)));
    lemma_parse_from_shift(x, rest, 0, switched(init, k));
    lemma_parse_from_switched(rest, 0, init, k);
}

} // verus!
