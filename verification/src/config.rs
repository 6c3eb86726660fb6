//! The option set and the command-line configuration.

use vstd::prelude::*;
use vstd::std_specs::iter::IteratorSpec;

verus! {

broadcast use vstd::string::next_postcondition;

/// The six independent visibility flags. Flags are additive: enabling one
/// never disables another. `number_nonblank` restricts which lines receive a
/// number; the command line always enables `number` along with it.
#[derive(Clone, Copy, PartialEq, Eq, Structural, Debug)]
pub struct Options {
    pub number: bool,
    pub number_nonblank: bool,
    pub show_ends: bool,
    pub show_tabs: bool,
    pub show_nonprinting: bool,
    pub squeeze_blank: bool,
}

/// The empty option set.
pub open spec fn options_none() -> Options {
    Options {
        number: false,
        number_nonblank: false,
        show_ends: false,
        show_tabs: false,
        show_nonprinting: false,
        squeeze_blank: false,
    }
}

/// An option set with exactly the named flags enabled.
pub open spec fn flag_set(
    number: bool,
    number_nonblank: bool,
    show_ends: bool,
    show_tabs: bool,
    show_nonprinting: bool,
    squeeze_blank: bool,
) -> Options {
    Options { number, number_nonblank, show_ends, show_tabs, show_nonprinting, squeeze_blank }
}

/// The field-wise union of two option sets: flags are additive.
pub open spec fn union_options(a: Options, b: Options) -> Options {
    Options {
        number: a.number || b.number,
        number_nonblank: a.number_nonblank || b.number_nonblank,
        show_ends: a.show_ends || b.show_ends,
        show_tabs: a.show_tabs || b.show_tabs,
        show_nonprinting: a.show_nonprinting || b.show_nonprinting,
        squeeze_blank: a.squeeze_blank || b.squeeze_blank,
    }
}

impl Options {
    /// The empty option set: every flag off.
    pub fn none() -> (r: Options)
        ensures
            r == options_none(),
    {
        Options {
            number: false,
            number_nonblank: false,
            show_ends: false,
            show_tabs: false,
            show_nonprinting: false,
            squeeze_blank: false,
        }
    }
}

/// A parse outcome that ends the run before any segment is processed:
/// a request for the usage or version text, or an unknown option character.
#[derive(Clone, Copy, PartialEq, Eq, Structural, Debug)]
pub enum ParseError {
    Help,
    Version,
    InvalidOption(char),
}

/// The flags a single short option character enables, or `None` for an
/// unknown character.
pub open spec fn short_option_effect(c: char) -> Option<Options> {
    if c == 'A' {
        Some(flag_set(false, false, true, true, true, false))
    } else if c == 'b' {
        Some(flag_set(true, true, false, false, false, false))
    } else if c == 'e' {
        Some(flag_set(false, false, true, false, true, false))
    } else if c == 'E' {
        Some(flag_set(false, false, true, false, false, false))
    } else if c == 'n' {
        Some(flag_set(true, false, false, false, false, false))
    } else if c == 's' {
        Some(flag_set(false, false, false, false, false, true))
    } else if c == 't' {
        Some(flag_set(false, false, false, true, true, false))
    } else if c == 'T' {
        Some(flag_set(false, false, false, true, false, false))
    } else if c == 'v' {
        Some(flag_set(false, false, false, false, true, false))
    } else {
        None
    }
}

/// Folds a cluster of short option characters into `opts`, stopping at the
/// first unknown character.
pub open spec fn apply_short_chars(opts: Options, s: Seq<char>) -> Result<Options, ParseError>
    decreases s.len(),
{
    if s.len() == 0 {
        Ok(opts)
    } else {
        match short_option_effect(s[0]) {
            Some(d) => apply_short_chars(union_options(opts, d), s.skip(1)),
            None => Err(ParseError::InvalidOption(s[0])),
        }
    }
}

/// The effect of one option string (an argument with its first `-` removed):
/// a whole long name, a help or version request, or a cluster of short
/// option characters.
pub open spec fn apply_option_string(opts: Options, s: Seq<char>) -> Result<Options, ParseError> {
    if s == "-show-all"@ {
        Ok(union_options(opts, flag_set(false, false, true, true, true, false)))
    } else if s == "-number-nonblank"@ {
        Ok(union_options(opts, flag_set(true, true, false, false, false, false)))
    } else if s == "-show-ends"@ {
        Ok(union_options(opts, flag_set(false, false, true, false, false, false)))
    } else if s == "-number"@ {
        Ok(union_options(opts, flag_set(true, false, false, false, false, false)))
    } else if s == "-squeeze-blank"@ {
        Ok(union_options(opts, flag_set(false, false, false, false, false, true)))
    } else if s == "-show-tabs"@ {
        Ok(union_options(opts, flag_set(false, false, false, true, false, false)))
    } else if s == "-show-nonprinting"@ {
        Ok(union_options(opts, flag_set(false, false, false, false, true, false)))
    } else if s == "-help"@ {
        Err(ParseError::Help)
    } else if s == "-version"@ {
        Err(ParseError::Version)
    } else {
        apply_short_chars(opts, s)
    }
}

/// Folds a list of option strings left to right, stopping at the first
/// terminating outcome.
pub open spec fn parse_option_strings(opts: Options, ss: Seq<Seq<char>>) -> Result<
    Options,
    ParseError,
>
    decreases ss.len(),
{
    if ss.len() == 0 {
        Ok(opts)
    } else {
        match apply_option_string(opts, ss[0]) {
            Ok(o) => parse_option_strings(o, ss.skip(1)),
            Err(e) => Err(e),
        }
    }
}

/// An argument that names options: it starts with `-` and has more behind it.
/// A lone `-` stands for standard input and is kept as a filepath.
pub open spec fn is_option_arg(a: Seq<char>) -> bool {
    a.len() > 1 && a[0] == '-'
}

/// The non-option arguments, in order.
pub open spec fn filepaths_of(args: Seq<Seq<char>>) -> Seq<Seq<char>>
    decreases args.len(),
{
    if args.len() == 0 {
        Seq::empty()
    } else {
        filepaths_of(args.drop_last()) + (if is_option_arg(args.last()) {
            Seq::empty()
        } else {
            seq![args.last()]
        })
    }
}

/// The option strings of the argument list: each option argument with its
/// first `-` removed, in order.
pub open spec fn option_strings_of(args: Seq<Seq<char>>) -> Seq<Seq<char>>
    decreases args.len(),
{
    if args.len() == 0 {
        Seq::empty()
    } else {
        option_strings_of(args.drop_last()) + (if is_option_arg(args.last()) {
            seq![args.last().skip(1)]
        } else {
            Seq::empty()
        })
    }
}

/// The option set an argument list denotes, starting from the empty set.
pub open spec fn options_of(args: Seq<Seq<char>>) -> Result<Options, ParseError> {
    parse_option_strings(options_none(), option_strings_of(args))
}

/// The characters of `s`, as a vector.
fn chars_of(s: &str) -> (v: Vec<char>)
    ensures
        v@ == s@,
{
    let mut it = s.chars();
    proof {
        vstd::string::axiom_spec_iter(s);
    }
    let mut v: Vec<char> = Vec::new();
    loop
        invariant
            v@ + it.remaining() =~= s@,
        ensures
            v@ == s@,
        decreases s@.len() - v@.len(),
    {
        let ghost prev_v = v@;
        let ghost prev_rem = it.remaining();
        match it.next() {
            Some(c) => {
                v.push(c);
                proof {
                    assert(v@ + it.remaining() =~= prev_v + prev_rem);
                }
            },
            None => {
                proof {
                    assert(v@ =~= s@);
                }
                break ;
            },
        }
    }
    v
}

/// Whether two character vectors hold the same characters.
fn chars_eq(a: &Vec<char>, b: &Vec<char>) -> (r: bool)
    ensures
        r == (a@ == b@),
{
    if a.len() != b.len() {
        return false;
    }
    let mut i: usize = 0;
    while i < a.len()
        invariant
            i <= a@.len(),
            a@.len() == b@.len(),
            forall|j: int| 0 <= j < i ==> a@[j] == b@[j],
        decreases a@.len() - i,
    {
        if a[i] != b[i] {
            return false;
        }
        i = i + 1;
    }
    proof {
        assert(a@ =~= b@);
    }
    true
}

/// Whether `a` holds exactly the characters of the literal `lit`.
fn chars_eq_str(a: &Vec<char>, lit: &str) -> (r: bool)
    ensures
        r == (a@ == lit@),
{
    let l = chars_of(lit);
    chars_eq(a, &l)
}

/// The characters of `v` behind the first one.
fn tail_chars(v: &Vec<char>) -> (t: Vec<char>)
    requires
        v@.len() >= 1,
    ensures
        t@ == v@.skip(1),
{
    let mut t: Vec<char> = Vec::new();
    let mut i: usize = 1;
    while i < v.len()
        invariant
            1 <= i <= v@.len(),
            t@ == v@.subrange(1, i as int),
        decreases v@.len() - i,
    {
        let c = v[i];
        t.push(c);
        proof {
            assert(t@ =~= v@.subrange(1, i + 1 as int));
        }
        i = i + 1;
    }
    proof {
        assert(t@ =~= v@.skip(1));
    }
    t
}

/// Merges the named flags into `opts`.
fn merge_flags(
    opts: Options,
    number: bool,
    number_nonblank: bool,
    show_ends: bool,
    show_tabs: bool,
    show_nonprinting: bool,
    squeeze_blank: bool,
) -> (r: Options)
    ensures
        r == union_options(
            opts,
            flag_set(number, number_nonblank, show_ends, show_tabs, show_nonprinting, squeeze_blank),
        ),
{
    Options {
        number: opts.number || number,
        number_nonblank: opts.number_nonblank || number_nonblank,
        show_ends: opts.show_ends || show_ends,
        show_tabs: opts.show_tabs || show_tabs,
        show_nonprinting: opts.show_nonprinting || show_nonprinting,
        squeeze_blank: opts.squeeze_blank || squeeze_blank,
    }
}

/// Folds one cluster of short option characters into `opts`.
fn apply_shorts(opts: Options, s: &Vec<char>) -> (r: Result<Options, ParseError>)
    ensures
        r == apply_short_chars(opts, s@),
{
    let mut acc = opts;
    let mut i: usize = 0;
    proof {
        assert(s@.skip(0) =~= s@);
    }
    while i < s.len()
        invariant
            i <= s@.len(),
            apply_short_chars(opts, s@) == apply_short_chars(acc, s@.skip(i as int)),
        decreases s@.len() - i,
    {
        let c = s[i];
        let r = if c == 'A' {
            Some(merge_flags(acc, false, false, true, true, true, false))
        } else if c == 'b' {
            Some(merge_flags(acc, true, true, false, false, false, false))
        } else if c == 'e' {
            Some(merge_flags(acc, false, false, true, false, true, false))
        } else if c == 'E' {
            Some(merge_flags(acc, false, false, true, false, false, false))
        } else if c == 'n' {
            Some(merge_flags(acc, true, false, false, false, false, false))
        } else if c == 's' {
            Some(merge_flags(acc, false, false, false, false, false, true))
        } else if c == 't' {
            Some(merge_flags(acc, false, false, false, true, true, false))
        } else if c == 'T' {
            Some(merge_flags(acc, false, false, false, true, false, false))
        } else if c == 'v' {
            Some(merge_flags(acc, false, false, false, false, true, false))
        } else {
            None
        };
        proof {
            assert(s@.skip(i as int)[0] == s@[i as int]);
            assert(s@.skip(i as int).skip(1) =~= s@.skip(i + 1 as int));
        }
        match r {
            Some(o) => {
                acc = o;
            },
            None => {
                return Err(ParseError::InvalidOption(c));
            },
        }
        i = i + 1;
    }
    proof {
        assert(s@.skip(s@.len() as int) =~= Seq::<char>::empty());
    }
    Ok(acc)
}

/// The effect of one option string on `opts`.
fn apply_option(opts: Options, s: &Vec<char>) -> (r: Result<Options, ParseError>)
    ensures
        r == apply_option_string(opts, s@),
{
    if chars_eq_str(s, "-show-all") {
        Ok(merge_flags(opts, false, false, true, true, true, false))
    } else if chars_eq_str(s, "-number-nonblank") {
        Ok(merge_flags(opts, true, true, false, false, false, false))
    } else if chars_eq_str(s, "-show-ends") {
        Ok(merge_flags(opts, false, false, true, false, false, false))
    } else if chars_eq_str(s, "-number") {
        Ok(merge_flags(opts, true, false, false, false, false, false))
    } else if chars_eq_str(s, "-squeeze-blank") {
        Ok(merge_flags(opts, false, false, false, false, false, true))
    } else if chars_eq_str(s, "-show-tabs") {
        Ok(merge_flags(opts, false, false, false, true, false, false))
    } else if chars_eq_str(s, "-show-nonprinting") {
        Ok(merge_flags(opts, false, false, false, false, true, false))
    } else if chars_eq_str(s, "-help") {
        Err(ParseError::Help)
    } else if chars_eq_str(s, "-version") {
        Err(ParseError::Version)
    } else {
        apply_shorts(opts, s)
    }
}

/// The parsed command line: the files to concatenate, in order, and the
/// active option set. The first argument is the program's own name and is
/// skipped; a lone `-` stays in `filepaths` and stands for standard input.
#[derive(Debug)]
pub struct Config {
    pub filepaths: Vec<String>,
    pub options: Options,
}

impl Config {
    /// Parses an argument list. Returns the configuration, or the
    /// terminating outcome (help, version, or the first unknown option
    /// character) that ends the run before any file is read.
    pub fn new(args: &Vec<String>) -> (r: Result<Config, ParseError>)
        requires
            args@.len() >= 1,
        ensures
            match r {
                Ok(c) => options_of(args.deep_view().skip(1)) == Ok::<Options, ParseError>(
                    c.options,
                ) && c.filepaths.deep_view() == filepaths_of(args.deep_view().skip(1)),
                Err(e) => options_of(args.deep_view().skip(1)) == Err::<Options, ParseError>(e),
            },
    {
        let ghost rest = args.deep_view().skip(1);
        let mut filepaths: Vec<String> = Vec::new();
        let mut opt_strings: Vec<Vec<char>> = Vec::new();
        let mut idx: usize = 1;
        proof {
            assert(args.deep_view().subrange(1, 1) =~= Seq::<Seq<char>>::empty());
            assert(filepaths.deep_view() =~= filepaths_of(args.deep_view().subrange(1, 1)));
            assert(opt_strings.deep_view() =~= option_strings_of(args.deep_view().subrange(1, 1)));
        }
        while idx < args.len()
            invariant
                1 <= idx <= args@.len(),
                filepaths.deep_view() == filepaths_of(args.deep_view().subrange(1, idx as int)),
                opt_strings.deep_view() == option_strings_of(
                    args.deep_view().subrange(1, idx as int),
                ),
            decreases args@.len() - idx,
        {
            let ghost prev_fp = filepaths.deep_view();
            let ghost prev_os = opt_strings.deep_view();
            let a = &args[idx];
            let cs = chars_of(a.as_str());
            proof {
                assert(cs@ == args.deep_view()[idx as int]);
            }
            if cs.len() > 1 && cs[0] == '-' {
                let rest_chars = tail_chars(&cs);
                opt_strings.push(rest_chars);
                proof {
                    assert(opt_strings.deep_view() =~~= prev_os.push(cs@.skip(1)));
                }
            } else {
                filepaths.push(a.clone());
                proof {
                    assert(filepaths.deep_view() =~~= prev_fp.push(cs@));
                }
            }
            proof {
                let pref = args.deep_view().subrange(1, idx + 1 as int);
                assert(pref.drop_last() =~= args.deep_view().subrange(1, idx as int));
                assert(pref.last() == args.deep_view()[idx as int]);
                assert(filepaths.deep_view() =~~= filepaths_of(pref));
                assert(opt_strings.deep_view() =~~= option_strings_of(pref));
            }
            idx = idx + 1;
        }
        proof {
            assert(args.deep_view().subrange(1, args@.len() as int) =~= rest);
        }
        let ghost ss = opt_strings.deep_view();
        let mut opts = Options::none();
        let mut k: usize = 0;
        proof {
            assert(ss.skip(0) =~= ss);
        }
        while k < opt_strings.len()
            invariant
                k <= ss.len(),
                opt_strings.deep_view() == ss,
                options_of(args.deep_view().skip(1)) == parse_option_strings(options_none(), ss),
                parse_option_strings(options_none(), ss) == parse_option_strings(
                    opts,
                    ss.skip(k as int),
                ),
            decreases ss.len() - k,
        {
            let s = &opt_strings[k];
            proof {
                assert(s@ == ss[k as int]);
                assert(ss.skip(k as int)[0] == ss[k as int]);
                assert(ss.skip(k as int).skip(1) =~= ss.skip(k + 1 as int));
            }
            match apply_option(opts, s) {
                Ok(o) => {
                    opts = o;
                },
                Err(e) => {
                    return Err(e);
                },
            }
            k = k + 1;
        }
        proof {
            assert(ss.skip(ss.len() as int) =~= Seq::<Seq<char>>::empty());
        }
        Ok(Config { filepaths, options: opts })
    }
}

} // verus!
