//! The decisions of the command line program: reading its arguments,
//! choosing the file formats, turning issues into diagnostics and a verdict,
//! and producing the converted text or the sampled names. Reading and writing
//! files and printing are left to the program itself.

use vstd::prelude::*;
use crate::model::{finalize, finalize_spec, issues_view, Document, DocM, Issue, IssueM, Severity};
use crate::sample::{sample, sample_spec, Rng};
use crate::text::{
    all_digits, append_chars, chars_of, decimal, digits_value, is_digit, push_decimal, push_str,
    rfind_char, rfind_char_in, slice_chars, str_eq, string_of,
};

verus! {

/// A grammar file format.
#[derive(Debug, Clone, Copy, PartialEq, Eq, Structural)]
pub enum Format {
    Ngt,
    Ngj,
}

pub open spec fn msg_unknown_format(v: Seq<char>) -> Seq<char> {
    "unknown format '"@ + v + "'; expected 'ngt' or 'ngj'"@
}

/// The format that a `--from`/`--to` value names.
pub open spec fn format_spec(v: Seq<char>) -> Result<Format, Seq<char>> {
    if v == "ngt"@ {
        Ok(Format::Ngt)
    } else if v == "ngj"@ {
        Ok(Format::Ngj)
    } else {
        Err(msg_unknown_format(v))
    }
}

/// Reads a `--from`/`--to` value.
pub fn parse_format(value: &str) -> (r: Result<Format, String>)
    ensures
        match format_spec(value@) {
            Ok(f) => r == Ok::<Format, String>(f),
            Err(e) => r matches Err(m) && m@ == e,
        },
{
    if str_eq(value, "ngt") {
        Ok(Format::Ngt)
    } else if str_eq(value, "ngj") {
        Ok(Format::Ngj)
    } else {
        let mut m: Vec<char> = Vec::new();
        push_str(&mut m, "unknown format '");
        push_str(&mut m, value);
        push_str(&mut m, "'; expected 'ngt' or 'ngj'");
        assert(m@ =~= msg_unknown_format(value@));
        Err(string_of(&m))
    }
}

/// The extension of a path: what follows its last `.`; none without a `.`.
pub open spec fn extension(p: Seq<char>) -> Option<Seq<char>> {
    match rfind_char(p, '.') {
        Some(i) => Some(p.skip(i + 1)),
        None => None,
    }
}

/// The format of a path by its extension; none for a path without one.
pub open spec fn path_format(p: Seq<char>) -> Option<Format> {
    match extension(p) {
        Some(e) => extension_format(e),
        None => None,
    }
}

/// The format that a file extension stands for.
pub open spec fn extension_format(e: Seq<char>) -> Option<Format> {
    if e == "ngt"@ || e == "txt"@ {
        Some(Format::Ngt)
    } else if e == "ngj"@ || e == "json"@ {
        Some(Format::Ngj)
    } else {
        None
    }
}

/// The format of a path by its extension (`.ngt`/`.txt`, `.ngj`/`.json`).
pub fn format_from_extension(path: &str) -> (r: Option<Format>)
    ensures
        r == path_format(path@),
{
    let v = chars_of(path);
    proof {
        crate::text::lemma_rfind_char_bounds(v@, '.');
    }
    let ext = match rfind_char_in(&v, '.') {
        Some(i) => {
            assert(rfind_char(v@, '.') == Some(i as int));
            assert(i < v.len());
            let e = slice_chars(&v, i + 1, v.len());
            assert(e@ =~= v@.skip(i + 1));
            e
        },
        None => {
            return None;
        },
    };
    let s = string_of(&ext);
    if str_eq(s.as_str(), "ngt") || str_eq(s.as_str(), "txt") {
        Some(Format::Ngt)
    } else if str_eq(s.as_str(), "ngj") || str_eq(s.as_str(), "json") {
        Some(Format::Ngj)
    } else {
        None
    }
}


/// What the conversion arguments ask for.
pub enum Command {
    /// Print the usage text.
    Help,
    /// Convert `input` in format `from` to `output` in format `to`.
    Convert { lenient: bool, from: Format, to: Format, input: String, output: String },
    /// Read and check `input` in format `from`, writing nothing.
    Check { lenient: bool, from: Format, input: String },
}

/// Arguments that cannot be followed; `show_help` asks for the usage text too.
pub struct UsageError {
    pub message: String,
    pub show_help: bool,
}

/// The flags and paths read so far from the conversion arguments.
pub struct ConvertScan {
    pub lenient: bool,
    pub check: bool,
    pub from: Option<Format>,
    pub to: Option<Format>,
    pub positional: Seq<Seq<char>>,
}

pub open spec fn msg_from_value() -> Seq<char> {
    "--from requires a value (ngt or ngj)"@
}

pub open spec fn msg_to_value() -> Seq<char> {
    "--to requires a value (ngt or ngj)"@
}

pub open spec fn msg_two_paths() -> Seq<char> {
    "expected exactly one input path and one output path"@
}

pub open spec fn msg_one_path() -> Seq<char> {
    "expected exactly one input path"@
}

pub open spec fn msg_infer_input(p: Seq<char>) -> Seq<char> {
    "cannot infer input format from '"@ + p + "'; pass --from"@
}

pub open spec fn msg_infer_output(p: Seq<char>) -> Seq<char> {
    "cannot infer output format from '"@ + p + "'; pass --to"@
}

/// Reading the conversion arguments from `i` on: `Ok(None)` when help is asked for.
pub open spec fn convert_scan(args: Seq<Seq<char>>, i: int, st: ConvertScan) -> Result<
    Option<ConvertScan>,
    Seq<char>,
>
    decreases args.len() - i,
{
    if i < 0 || i >= args.len() {
        Ok(Some(st))
    } else {
        let a = args[i];
        if a == "--lenient"@ {
            convert_scan(args, i + 1, ConvertScan { lenient: true, ..st })
        } else if a == "--help"@ || a == "-h"@ {
            Ok(None)
        } else if a == "--from"@ {
            if i + 1 >= args.len() {
                Err(msg_from_value())
            } else {
                match format_spec(args[i + 1]) {
                    Err(e) => Err(e),
                    Ok(f) => convert_scan(args, i + 2, ConvertScan { from: Some(f), ..st }),
                }
            }
        } else if a == "--to"@ {
            if i + 1 >= args.len() {
                Err(msg_to_value())
            } else {
                match format_spec(args[i + 1]) {
                    Err(e) => Err(e),
                    Ok(f) => convert_scan(args, i + 2, ConvertScan { to: Some(f), ..st }),
                }
            }
        } else if a == "--check"@ {
            convert_scan(args, i + 1, ConvertScan { check: true, ..st })
        } else {
            convert_scan(args, i + 1, ConvertScan { positional: st.positional.push(a), ..st })
        }
    }
}

/// The spec value of a command.
pub enum CommandM {
    Help,
    Convert { lenient: bool, from: Format, to: Format, input: Seq<char>, output: Seq<char> },
    Check { lenient: bool, from: Format, input: Seq<char> },
}

impl View for Command {
    type V = CommandM;

    open spec fn view(&self) -> CommandM {
        match self {
            Command::Help => CommandM::Help,
            Command::Convert { lenient, from, to, input, output } => CommandM::Convert {
                lenient: *lenient,
                from: *from,
                to: *to,
                input: input@,
                output: output@,
            },
            Command::Check { lenient, from, input } => CommandM::Check {
                lenient: *lenient,
                from: *from,
                input: input@,
            },
        }
    }
}

/// The format given by a flag, or else by the path's extension.
pub open spec fn chosen_format(flag: Option<Format>, path: Seq<char>) -> Option<Format> {
    match flag {
        Some(f) => Some(f),
        None => path_format(path),
    }
}

/// What the conversion arguments ask for, or the usage error (with whether
/// the usage text goes with it).
pub open spec fn convert_command_spec(args: Seq<Seq<char>>) -> Result<CommandM, (Seq<char>, bool)> {
    let init = ConvertScan { lenient: false, check: false, from: None, to: None, positional: seq![] };
    match convert_scan(args, 0, init) {
        Err(e) => Err((e, false)),
        Ok(None) => Ok(CommandM::Help),
        Ok(Some(st)) => if st.check {
            if st.positional.len() != 1 {
                Err((msg_one_path(), false))
            } else {
                match chosen_format(st.from, st.positional[0]) {
                    None => Err((msg_infer_input(st.positional[0]), false)),
                    Some(f) => Ok(
                        CommandM::Check { lenient: st.lenient, from: f, input: st.positional[0] },
                    ),
                }
            }
        } else if st.positional.len() != 2 {
            Err((msg_two_paths(), true))
        } else {
            match chosen_format(st.from, st.positional[0]) {
                None => Err((msg_infer_input(st.positional[0]), false)),
                Some(f) => match chosen_format(st.to, st.positional[1]) {
                    None => Err((msg_infer_output(st.positional[1]), false)),
                    Some(t) => Ok(
                        CommandM::Convert {
                            lenient: st.lenient,
                            from: f,
                            to: t,
                            input: st.positional[0],
                            output: st.positional[1],
                        },
                    ),
                },
            }
        },
    }
}

pub open spec fn strings_view(v: Seq<String>) -> Seq<Seq<char>> {
    v.map_values(|s: String| s@)
}

fn usage_error(message: String, show_help: bool) -> (e: UsageError)
    ensures
        e.message == message,
        e.show_help == show_help,
{
    UsageError { message, show_help }
}

fn text_with(before: &str, mid: &str, after: &str) -> (m: String)
    ensures
        m@ == before@ + mid@ + after@,
{
    let mut v: Vec<char> = Vec::new();
    push_str(&mut v, before);
    push_str(&mut v, mid);
    push_str(&mut v, after);
    assert(v@ =~= before@ + mid@ + after@);
    string_of(&v)
}

/// The format given by a flag, or else by the path's extension.
fn choose_format(flag: Option<Format>, path: &str) -> (r: Option<Format>)
    ensures
        r == chosen_format(flag, path@),
{
    match flag {
        Some(f) => Some(f),
        None => format_from_extension(path),
    }
}

/// Reads the conversion arguments, as `convert_command_spec` describes.
pub fn parse_convert_args(args: &Vec<String>) -> (r: Result<Command, UsageError>)
    ensures
        match convert_command_spec(strings_view(args@)) {
            Ok(c) => r matches Ok(cmd) && cmd@ == c,
            Err((m, h)) => r matches Err(e) && e.message@ == m && e.show_help == h,
        },
{
    let ghost av = strings_view(args@);
    let ghost init = ConvertScan { lenient: false, check: false, from: None, to: None, positional: seq![] };
    let mut lenient = false;
    let mut check = false;
    let mut from: Option<Format> = None;
    let mut to: Option<Format> = None;
    let mut positional: Vec<String> = Vec::new();
    let mut i: usize = 0;
    assert(strings_view(positional@) =~= Seq::<Seq<char>>::empty());
    while i < args.len()
        invariant
            av == strings_view(args@),
            init == (ConvertScan {
                lenient: false,
                check: false,
                from: None,
                to: None,
                positional: seq![],
            }),
            i <= args.len(),
            convert_scan(av, 0, init) == convert_scan(
                av,
                i as int,
                ConvertScan { lenient, check, from, to, positional: strings_view(positional@) },
            ),
        decreases args.len() - i,
    {
        let a = args[i].as_str();
        assert(av[i as int] == a@);
        if str_eq(a, "--lenient") {
            lenient = true;
            i = i + 1;
        } else if str_eq(a, "--help") || str_eq(a, "-h") {
            return Ok(Command::Help);
        } else if str_eq(a, "--from") || str_eq(a, "--to") {
            let is_from = str_eq(a, "--from");
            if i + 1 >= args.len() {
                let m = if is_from {
                    String::from_str("--from requires a value (ngt or ngj)")
                } else {
                    String::from_str("--to requires a value (ngt or ngj)")
                };
                return Err(usage_error(m, false));
            }
            assert(av[i + 1] == args[i + 1 as int]@);
            match parse_format(args[i + 1].as_str()) {
                Ok(f) => {
                    if is_from {
                        from = Some(f);
                    } else {
                        to = Some(f);
                    }
                },
                Err(m) => {
                    return Err(usage_error(m, false));
                },
            }
            i = i + 2;
        } else if str_eq(a, "--check") {
            check = true;
            i = i + 1;
        } else {
            let ghost before = positional@;
            positional.push(String::from_str(a));
            assert(strings_view(positional@) =~= strings_view(before).push(a@));
            i = i + 1;
        }
    }
    assert(strings_view(positional@).len() == positional.len());
    if check {
        if positional.len() != 1 {
            return Err(usage_error(String::from_str("expected exactly one input path"), false));
        }
        let input = positional[0].as_str();
        assert(strings_view(positional@)[0] == input@);
        match choose_format(from, input) {
            None => Err(
                usage_error(text_with("cannot infer input format from '", input, "'; pass --from"), false),
            ),
            Some(f) => Ok(Command::Check { lenient, from: f, input: String::from_str(input) }),
        }
    } else {
        if positional.len() != 2 {
            return Err(
                usage_error(
                    String::from_str("expected exactly one input path and one output path"),
                    true,
                ),
            );
        }
        let input = positional[0].as_str();
        let output = positional[1].as_str();
        assert(strings_view(positional@)[0] == input@);
        assert(strings_view(positional@)[1] == output@);
        let f = match choose_format(from, input) {
            None => {
                return Err(
                    usage_error(
                        text_with("cannot infer input format from '", input, "'; pass --from"),
                        false,
                    ),
                );
            },
            Some(f) => f,
        };
        match choose_format(to, output) {
            None => Err(
                usage_error(text_with("cannot infer output format from '", output, "'; pass --to"), false),
            ),
            Some(t) => Ok(
                Command::Convert {
                    lenient,
                    from: f,
                    to: t,
                    input: String::from_str(input),
                    output: String::from_str(output),
                },
            ),
        }
    }
}


/// The number a `--count`/`--seed` value denotes, read as Rust reads an
/// unsigned integer: an optional `+` and at least one decimal digit.
pub open spec fn unsigned_value(s: Seq<char>) -> Option<nat> {
    let d = if s.len() > 0 && s[0] == '+' {
        s.skip(1)
    } else {
        s
    };
    if d.len() > 0 && all_digits(d) {
        Some(digits_value(d))
    } else {
        None
    }
}

/// `unsigned_value(s)` when it is at most `max`.
pub open spec fn bounded_value(s: Seq<char>, max: nat) -> Option<nat> {
    match unsigned_value(s) {
        Some(n) => if n <= max {
            Some(n)
        } else {
            None
        },
        None => None,
    }
}

/// Reads an unsigned number of at most `max`, as `bounded_value` describes.
fn parse_bounded(s: &str, max: u64) -> (r: Option<u64>)
    ensures
        match bounded_value(s@, max as nat) {
            Some(n) => r == Some(n as u64),
            None => r is None,
        },
{
    let v = chars_of(s);
    let start: usize = if v.len() > 0 && v[0] == '+' {
        1
    } else {
        0
    };
    let ghost d = v@.subrange(start as int, v.len() as int);
    assert(d =~= if v@.len() > 0 && v@[0] == '+' {
        v@.skip(1)
    } else {
        v@
    });
    if start == v.len() {
        return None;
    }
    let mut acc: u128 = 0;
    let mut i = start;
    assert(d.take(0) =~= Seq::<char>::empty());
    while i < v.len()
        invariant
            start <= i <= v.len(),
            v@ == s@,
            d == (if v@.len() > 0 && v@[0] == '+' {
                v@.skip(1)
            } else {
                v@
            }),
            d == v@.subrange(start as int, v.len() as int),
            all_digits(d.take(i - start)),
            acc == digits_value(d.take(i - start)),
            acc <= max,
        decreases v.len() - i,
    {
        let c = v[i];
        assert(d.take(i - start + 1).drop_last() =~= d.take(i - start));
        assert(d.take(i - start + 1).last() == c);
        if !('0' <= c && c <= '9') {
            assert(!is_digit(d[i - start]));
            return None;
        }
        acc = acc * 10 + (c as u32 - '0' as u32) as u128;
        i = i + 1;
        assert(all_digits(d.take(i - start)));
        if acc > max as u128 {
            proof {
                crate::text::lemma_digits_value_prefix(d, i - start);
            }
            return None;
        }
    }
    assert(d.take(i - start) =~= d);
    Some(acc as u64)
}

/// The flags and paths read so far from the sampling arguments.
pub struct SampleScan {
    pub lenient: bool,
    pub from: Option<Format>,
    pub count: u32,
    pub seed: Option<u64>,
    pub positional: Seq<Seq<char>>,
}

pub open spec fn msg_count_value() -> Seq<char> {
    "--count requires a number"@
}

pub open spec fn msg_bad_count(v: Seq<char>) -> Seq<char> {
    "'"@ + v + "' is not a valid count"@
}

pub open spec fn msg_zero_count() -> Seq<char> {
    "--count must be at least 1"@
}

pub open spec fn msg_seed_value() -> Seq<char> {
    "--seed requires a number"@
}

pub open spec fn msg_bad_seed(v: Seq<char>) -> Seq<char> {
    "'"@ + v + "' is not a valid seed"@
}

/// Reading the sampling arguments from `i` on.
pub open spec fn sample_scan(args: Seq<Seq<char>>, i: int, st: SampleScan) -> Result<SampleScan, Seq<char>>
    decreases args.len() - i,
{
    if i < 0 || i >= args.len() {
        Ok(st)
    } else {
        let a = args[i];
        if a == "--lenient"@ {
            sample_scan(args, i + 1, SampleScan { lenient: true, ..st })
        } else if a == "--from"@ {
            if i + 1 >= args.len() {
                Err(msg_from_value())
            } else {
                match format_spec(args[i + 1]) {
                    Err(e) => Err(e),
                    Ok(f) => sample_scan(args, i + 2, SampleScan { from: Some(f), ..st }),
                }
            }
        } else if a == "--count"@ {
            if i + 1 >= args.len() {
                Err(msg_count_value())
            } else {
                match bounded_value(args[i + 1], u32::MAX as nat) {
                    None => Err(msg_bad_count(args[i + 1])),
                    Some(n) => if n == 0 {
                        Err(msg_zero_count())
                    } else {
                        sample_scan(args, i + 2, SampleScan { count: n as u32, ..st })
                    },
                }
            }
        } else if a == "--seed"@ {
            if i + 1 >= args.len() {
                Err(msg_seed_value())
            } else {
                match bounded_value(args[i + 1], u64::MAX as nat) {
                    None => Err(msg_bad_seed(args[i + 1])),
                    Some(n) => sample_scan(args, i + 2, SampleScan { seed: Some(n as u64), ..st }),
                }
            }
        } else {
            sample_scan(args, i + 1, SampleScan { positional: st.positional.push(a), ..st })
        }
    }
}

/// What the sampling arguments ask for.
pub struct SampleArgs {
    pub lenient: bool,
    pub from: Format,
    pub count: u32,
    pub seed: Option<u64>,
    pub input: String,
}

/// The spec value of the sampling arguments.
pub struct SampleArgsM {
    pub lenient: bool,
    pub from: Format,
    pub count: u32,
    pub seed: Option<u64>,
    pub input: Seq<char>,
}

impl View for SampleArgs {
    type V = SampleArgsM;

    open spec fn view(&self) -> SampleArgsM {
        SampleArgsM {
            lenient: self.lenient,
            from: self.from,
            count: self.count,
            seed: self.seed,
            input: self.input@,
        }
    }
}

/// What the sampling arguments ask for (one name unless `--count` says
/// otherwise), or the usage error.
pub open spec fn sample_args_spec(args: Seq<Seq<char>>) -> Result<SampleArgsM, Seq<char>> {
    let init = SampleScan { lenient: false, from: None, count: 1, seed: None, positional: seq![] };
    match sample_scan(args, 0, init) {
        Err(e) => Err(e),
        Ok(st) => if st.positional.len() != 1 {
            Err(msg_one_path())
        } else {
            match chosen_format(st.from, st.positional[0]) {
                None => Err(msg_infer_input(st.positional[0])),
                Some(f) => Ok(
                    SampleArgsM {
                        lenient: st.lenient,
                        from: f,
                        count: st.count,
                        seed: st.seed,
                        input: st.positional[0],
                    },
                ),
            }
        },
    }
}

/// Reads the sampling arguments, as `sample_args_spec` describes.
pub fn parse_sample_args(args: &Vec<String>) -> (r: Result<SampleArgs, String>)
    ensures
        match sample_args_spec(strings_view(args@)) {
            Ok(a) => r matches Ok(x) && x@ == a,
            Err(m) => r matches Err(e) && e@ == m,
        },
{
    let ghost av = strings_view(args@);
    let ghost init = SampleScan { lenient: false, from: None, count: 1, seed: None, positional: seq![] };
    let mut lenient = false;
    let mut from: Option<Format> = None;
    let mut count: u32 = 1;
    let mut seed: Option<u64> = None;
    let mut positional: Vec<String> = Vec::new();
    let mut i: usize = 0;
    assert(strings_view(positional@) =~= Seq::<Seq<char>>::empty());
    while i < args.len()
        invariant
            av == strings_view(args@),
            init == (SampleScan {
                lenient: false,
                from: None,
                count: 1,
                seed: None,
                positional: seq![],
            }),
            i <= args.len(),
            sample_scan(av, 0, init) == sample_scan(
                av,
                i as int,
                SampleScan { lenient, from, count, seed, positional: strings_view(positional@) },
            ),
        decreases args.len() - i,
    {
        let a = args[i].as_str();
        assert(av[i as int] == a@);
        if str_eq(a, "--lenient") {
            lenient = true;
            i = i + 1;
        } else if str_eq(a, "--from") {
            if i + 1 >= args.len() {
                return Err(String::from_str("--from requires a value (ngt or ngj)"));
            }
            assert(av[i + 1] == args[i + 1 as int]@);
            match parse_format(args[i + 1].as_str()) {
                Ok(f) => {
                    from = Some(f);
                },
                Err(m) => {
                    return Err(m);
                },
            }
            i = i + 2;
        } else if str_eq(a, "--count") {
            if i + 1 >= args.len() {
                return Err(String::from_str("--count requires a number"));
            }
            let value = args[i + 1].as_str();
            assert(av[i + 1] == value@);
            match parse_bounded(value, 0xffff_ffff) {
                None => {
                    return Err(text_with("'", value, "' is not a valid count"));
                },
                Some(n) => {
                    if n == 0 {
                        return Err(String::from_str("--count must be at least 1"));
                    }
                    count = n as u32;
                },
            }
            i = i + 2;
        } else if str_eq(a, "--seed") {
            if i + 1 >= args.len() {
                return Err(String::from_str("--seed requires a number"));
            }
            let value = args[i + 1].as_str();
            assert(av[i + 1] == value@);
            match parse_bounded(value, 0xffff_ffff_ffff_ffff) {
                None => {
                    return Err(text_with("'", value, "' is not a valid seed"));
                },
                Some(n) => {
                    seed = Some(n);
                },
            }
            i = i + 2;
        } else {
            let ghost before = positional@;
            positional.push(String::from_str(a));
            assert(strings_view(positional@) =~= strings_view(before).push(a@));
            i = i + 1;
        }
    }
    assert(strings_view(positional@).len() == positional.len());
    if positional.len() != 1 {
        return Err(String::from_str("expected exactly one input path"));
    }
    let input = positional[0].as_str();
    assert(strings_view(positional@)[0] == input@);
    match choose_format(from, input) {
        None => Err(text_with("cannot infer input format from '", input, "'; pass --from")),
        Some(f) => Ok(SampleArgs { lenient, from: f, count, seed, input: String::from_str(input) }),
    }
}


/// The label of an issue in a diagnostic line.
pub open spec fn issue_label(sev: Severity, lenient: bool) -> Seq<char> {
    match sev {
        Severity::Fatal => "error"@,
        Severity::Semantic => if lenient {
            "warning"@
        } else {
            "error"@
        },
    }
}

/// The diagnostic line of an issue: `<label>: <message>`.
pub open spec fn diagnostic_line(i: IssueM, lenient: bool) -> Seq<char> {
    issue_label(i.severity, lenient) + ": "@ + i.message
}

pub open spec fn diagnostic_lines(is: Seq<IssueM>, lenient: bool) -> Seq<Seq<char>> {
    is.map_values(|i: IssueM| diagnostic_line(i, lenient))
}

pub open spec fn has_fatal(is: Seq<IssueM>) -> bool {
    exists|k: int| 0 <= k < is.len() && #[trigger] is[k].severity == Severity::Fatal
}

/// Whether work may go on after `is`: with no issue, or with only semantic
/// issues in lenient mode; otherwise the error that stops it.
pub open spec fn verdict(is: Seq<IssueM>, lenient: bool) -> Result<(), Seq<char>> {
    if is.len() == 0 {
        Ok(())
    } else if has_fatal(is) {
        Err(decimal(is.len()) + " issue(s) found and cannot be bypassed with --lenient"@)
    } else if lenient {
        Ok(())
    } else {
        Err(decimal(is.len()) + " issue(s) found; rerun with --lenient to convert anyway"@)
    }
}

/// The diagnostic lines of `issues` and the verdict on them.
pub fn report_issues(issues: &Vec<Issue>, lenient: bool) -> (r: (Vec<String>, Result<(), String>))
    ensures
        strings_view(r.0@) == diagnostic_lines(issues_view(issues@), lenient),
        match verdict(issues_view(issues@), lenient) {
            Ok(()) => r.1 is Ok,
            Err(m) => r.1 matches Err(e) && e@ == m,
        },
{
    let ghost is = issues_view(issues@);
    let mut lines: Vec<String> = Vec::new();
    let mut fatal = false;
    let mut i: usize = 0;
    assert(strings_view(lines@) =~= diagnostic_lines(is.take(0), lenient));
    while i < issues.len()
        invariant
            is == issues_view(issues@),
            i <= issues.len(),
            strings_view(lines@) == diagnostic_lines(is.take(i as int), lenient),
            fatal == has_fatal(is.take(i as int)),
        decreases issues.len() - i,
    {
        let issue = &issues[i];
        let mut m: Vec<char> = Vec::new();
        let this_fatal = match issue.severity {
            Severity::Fatal => true,
            Severity::Semantic => false,
        };
        if this_fatal || !lenient {
            push_str(&mut m, "error");
        } else {
            push_str(&mut m, "warning");
        }
        push_str(&mut m, ": ");
        let mv = chars_of(issue.message.as_str());
        append_chars(&mut m, &mv);
        assert(m@ =~= diagnostic_line(is[i as int], lenient));
        let ghost before = lines@;
        lines.push(string_of(&m));
        assert(strings_view(lines@) =~= strings_view(before).push(m@));
        assert(is.take(i + 1) =~= is.take(i as int).push(is[i as int]));
        assert(diagnostic_lines(is.take(i + 1), lenient) =~= diagnostic_lines(
            is.take(i as int),
            lenient,
        ).push(diagnostic_line(is[i as int], lenient)));
        proof {
            if this_fatal {
                assert(is.take(i + 1)[i as int].severity == Severity::Fatal);
            }
            if fatal {
                let k = choose|k: int| 0 <= k < i && #[trigger] is.take(i as int)[k].severity == Severity::Fatal;
                assert(is.take(i + 1)[k].severity == Severity::Fatal);
            }
            if has_fatal(is.take(i + 1)) {
                let k = choose|k: int| 0 <= k < i + 1 && #[trigger] is.take(i + 1)[k].severity == Severity::Fatal;
                if k < i {
                    assert(is.take(i as int)[k].severity == Severity::Fatal);
                }
            }
        }
        fatal = fatal || this_fatal;
        i = i + 1;
    }
    assert(is.take(issues.len() as int) =~= is);
    if issues.len() == 0 {
        return (lines, Ok(()));
    }
    let mut m: Vec<char> = Vec::new();
    push_decimal(&mut m, issues.len() as u64);
    if fatal {
        push_str(&mut m, " issue(s) found and cannot be bypassed with --lenient");
        (lines, Err(string_of(&m)))
    } else if lenient {
        (lines, Ok(()))
    } else {
        push_str(&mut m, " issue(s) found; rerun with --lenient to convert anyway");
        (lines, Err(string_of(&m)))
    }
}

/// What reading a source in format `from` gives.
pub open spec fn read_spec(source: Seq<char>, from: Format) -> Result<(DocM, Seq<IssueM>), IssueM> {
    match from {
        Format::Ngt => crate::ngt::parse_spec(source),
        Format::Ngj => crate::ngj::parse_spec(source),
    }
}

/// Loading a grammar: the diagnostic lines to show, and the finalized
/// document or the error that stops the program. A fatal reading issue stops
/// it with that issue's message and nothing else shown.
pub open spec fn load_spec(source: Seq<char>, from: Format, lenient: bool) -> (Seq<Seq<char>>, Result<DocM, Seq<char>>) {
    match read_spec(source, from) {
        Err(e) => (seq![], Err(e.message)),
        Ok((d, is)) => {
            let fin = finalize_spec(d);
            let all = is + fin.1;
            (
                diagnostic_lines(all, lenient),
                match verdict(all, lenient) {
                    Ok(()) => Ok(fin.0),
                    Err(m) => Err(m),
                },
            )
        },
    }
}

/// Reads and checks a grammar, as `load_spec` describes.
pub fn load(source: &str, from: Format, lenient: bool) -> (r: (Vec<String>, Result<Document, String>))
    requires
        source@.len() < usize::MAX,
    ensures
        strings_view(r.0@) == load_spec(source@, from, lenient).0,
        match load_spec(source@, from, lenient).1 {
            Ok(d) => r.1 matches Ok(doc) && doc@ == d,
            Err(m) => r.1 matches Err(e) && e@ == m,
        },
{
    let parsed = match from {
        Format::Ngt => crate::ngt::parse(source),
        Format::Ngj => crate::ngj::parse(source),
    };
    let (mut doc, mut issues) = match parsed {
        Ok(x) => x,
        Err(fatal) => {
            let lines: Vec<String> = Vec::new();
            assert(strings_view(lines@) =~= Seq::<Seq<char>>::empty());
            return (lines, Err(fatal.message));
        },
    };
    finalize(&mut doc, &mut issues);
    let (lines, verdict) = report_issues(&issues, lenient);
    match verdict {
        Ok(()) => (lines, Ok(doc)),
        Err(m) => (lines, Err(m)),
    }
}

/// The text written for a document in format `to`, ending in a line break.
pub open spec fn output_spec(d: DocM, to: Format) -> Seq<char> {
    let t = match to {
        Format::Ngt => crate::ngt::write_spec(d),
        Format::Ngj => crate::ngj::write_spec(d),
    };
    if t.len() > 0 && t.last() == '\n' {
        t
    } else {
        t.push('\n')
    }
}

/// The text of `doc` in format `to`, as `output_spec` describes.
pub fn render_output(doc: &Document, to: Format) -> (s: String)
    ensures
        s@ == output_spec(doc@, to),
{
    let text = match to {
        Format::Ngt => crate::ngt::write(doc),
        Format::Ngj => crate::ngj::write(doc),
    };
    let mut v = chars_of(text.as_str());
    if v.len() == 0 || v[v.len() - 1] != '\n' {
        v.push('\n');
    }
    string_of(&v)
}

/// `count` samples in a row from state `st`: the names, the error that
/// stopped them (if any), and the state after.
pub open spec fn samples_spec(d: DocM, st: u64, count: nat) -> (Seq<Seq<char>>, Option<Seq<char>>, u64)
    decreases count,
{
    if count == 0 {
        (seq![], None, st)
    } else {
        let (names, err, st1) = samples_spec(d, st, (count - 1) as nat);
        if err is Some {
            (names, err, st1)
        } else {
            let o = sample_spec(d, st1);
            match o.0 {
                Ok(x) => (names.push(x), None, o.1),
                Err(e) => (names, Some(e), o.1),
            }
        }
    }
}

/// Samples `count` names in a row, stopping at the first error, as
/// `samples_spec` describes.
pub fn sample_names(doc: &Document, rng: &mut Rng, count: u32) -> (r: (Vec<String>, Option<String>))
    ensures
        ({
            let (names, err, st) = samples_spec(doc@, old(rng)@, count as nat);
            &&& strings_view(r.0@) == names
            &&& final(rng)@ == st
            &&& match err {
                Some(e) => r.1 matches Some(m) && m@ == e,
                None => r.1 is None,
            }
        }),
{
    let mut names: Vec<String> = Vec::new();
    let mut k: u32 = 0;
    assert(strings_view(names@) =~= Seq::<Seq<char>>::empty());
    while k < count
        invariant
            k <= count,
            samples_spec(doc@, old(rng)@, k as nat) == (strings_view(names@), None::<Seq<char>>, rng@),
        decreases count - k,
    {
        match sample(doc, rng) {
            Ok(name) => {
                let ghost before = names@;
                names.push(name);
                assert(strings_view(names@) =~= strings_view(before).push(name@));
            },
            Err(e) => {
                proof {
                    lemma_samples_stop(doc@, old(rng)@, (k + 1) as nat, count as nat);
                }
                return (names, Some(e));
            },
        }
        k = k + 1;
    }
    (names, None)
}

/// Once sampling has stopped, more rounds change nothing.
proof fn lemma_samples_stop(d: DocM, st: u64, k: nat, n: nat)
    requires
        k <= n,
        samples_spec(d, st, k).1 is Some,
    ensures
        samples_spec(d, st, n) == samples_spec(d, st, k),
    decreases n - k,
{
    if k < n {
        lemma_samples_stop(d, st, k, (n - 1) as nat);
    }
}


/// Strict and lenient modes: every issue gets a diagnostic line whatever the
/// mode; strict mode goes on only without issues, lenient mode goes on unless
/// an issue is fatal.
pub proof fn lemma_verdict_modes(is: Seq<IssueM>)
    ensures
        diagnostic_lines(is, true).len() == is.len(),
        diagnostic_lines(is, false).len() == is.len(),
        verdict(is, false) is Ok <==> is.len() == 0,
        verdict(is, true) is Ok <==> !has_fatal(is),
{
}

/// Lenient mode only changes how semantic issues are labelled: fatal issues
/// read `error` in both modes, and semantic ones read `warning` exactly in
/// lenient mode.
pub proof fn lemma_lenient_labels(i: IssueM)
    ensures
        i.severity == Severity::Fatal ==> issue_label(i.severity, true) == issue_label(i.severity, false),
        i.severity == Severity::Semantic ==> issue_label(i.severity, true) == "warning"@
            && issue_label(i.severity, false) == "error"@,
{
}


proof fn lemma_scan_lenient(args: Seq<Seq<char>>, i: int, st: ConvertScan)
    requires
        0 <= i,
    ensures
        convert_scan(args, i, st) matches Ok(Some(st2)) ==> (st2.lenient <==> (st.lenient || exists|j: int|
            i <= j < args.len() && #[trigger] args[j] == "--lenient"@)),
    decreases args.len() - i,
{
    reveal_strlit("--lenient");
    reveal_strlit("--from");
    reveal_strlit("--to");
    reveal_strlit("ngt");
    reveal_strlit("ngj");
    if i < args.len() {
        let a = args[i];
        if a == "--lenient"@ {
            lemma_scan_lenient(args, i + 1, ConvertScan { lenient: true, ..st });
        } else if a == "--help"@ || a == "-h"@ {
        } else if a == "--from"@ || a == "--to"@ {
            assert(a != "--lenient"@) by {
                assert(a.len() != "--lenient"@.len());
            }
            if i + 1 < args.len() {
                if let Ok(f) = format_spec(args[i + 1]) {
                    assert(args[i + 1] != "--lenient"@) by {
                        assert(args[i + 1].len() != "--lenient"@.len());
                    }
                    let st1 = if a == "--from"@ {
                        ConvertScan { from: Some(f), ..st }
                    } else {
                        ConvertScan { to: Some(f), ..st }
                    };
                    lemma_scan_lenient(args, i + 2, st1);
                    if exists|j: int| i <= j < args.len() && #[trigger] args[j] == "--lenient"@ {
                        let j = choose|j: int| i <= j < args.len() && #[trigger] args[j] == "--lenient"@;
                        assert(j >= i + 2);
                    }
                }
            }
        } else if a == "--check"@ {
            lemma_scan_lenient(args, i + 1, ConvertScan { check: true, ..st });
        } else {
            lemma_scan_lenient(args, i + 1, ConvertScan { positional: st.positional.push(a), ..st });
        }
    }
}

/// `--lenient` is honoured wherever it stands: a conversion or a check that
/// the arguments ask for is lenient exactly when `--lenient` is among them.
pub proof fn lemma_lenient_flag(args: Seq<Seq<char>>)
    ensures
        convert_command_spec(args) matches Ok(CommandM::Convert { lenient, .. }) ==> (lenient
            <==> args.contains("--lenient"@)),
        convert_command_spec(args) matches Ok(CommandM::Check { lenient, .. }) ==> (lenient
            <==> args.contains("--lenient"@)),
{
    let init = ConvertScan { lenient: false, check: false, from: None, to: None, positional: seq![] };
    lemma_scan_lenient(args, 0, init);
    if args.contains("--lenient"@) {
        let j = choose|j: int| 0 <= j < args.len() && args[j] == "--lenient"@;
        assert(args[j] == "--lenient"@);
    }
}


proof fn lemma_sample_scan_lenient(args: Seq<Seq<char>>, i: int, st: SampleScan)
    requires
        0 <= i,
    ensures
        sample_scan(args, i, st) matches Ok(st2) ==> (st2.lenient <==> (st.lenient || exists|j: int|
            i <= j < args.len() && #[trigger] args[j] == "--lenient"@)),
    decreases args.len() - i,
{
    reveal_strlit("--lenient");
    reveal_strlit("--from");
    reveal_strlit("--count");
    reveal_strlit("--seed");
    reveal_strlit("ngt");
    reveal_strlit("ngj");
    if i < args.len() {
        let a = args[i];
        if a == "--lenient"@ {
            lemma_sample_scan_lenient(args, i + 1, SampleScan { lenient: true, ..st });
        } else if a == "--from"@ || a == "--count"@ || a == "--seed"@ {
            assert(a != "--lenient"@) by {
                assert(a.len() != "--lenient"@.len());
            }
            if i + 1 < args.len() {
                let v = args[i + 1];
                if sample_scan(args, i, st) is Ok {
                    assert(v != "--lenient"@) by {
                        if v == "--lenient"@ {
                            assert(v[0] == '-');
                            assert(!is_digit(v[0]));
                            assert(format_spec(v) is Err) by {
                                assert(v.len() != "ngt"@.len());
                            }
                        }
                    }
                    if a == "--from"@ {
                        if let Ok(f) = format_spec(v) {
                            lemma_sample_scan_lenient(args, i + 2, SampleScan { from: Some(f), ..st });
                        }
                    } else if a == "--count"@ {
                        if let Some(n) = bounded_value(v, u32::MAX as nat) {
                            lemma_sample_scan_lenient(args, i + 2, SampleScan { count: n as u32, ..st });
                        }
                    } else {
                        if let Some(n) = bounded_value(v, u64::MAX as nat) {
                            lemma_sample_scan_lenient(args, i + 2, SampleScan { seed: Some(n as u64), ..st });
                        }
                    }
                    if exists|j: int| i <= j < args.len() && #[trigger] args[j] == "--lenient"@ {
                        let j = choose|j: int| i <= j < args.len() && #[trigger] args[j] == "--lenient"@;
                        assert(j >= i + 2);
                    }
                }
            }
        } else {
            lemma_sample_scan_lenient(args, i + 1, SampleScan { positional: st.positional.push(a), ..st });
        }
    }
}

/// Sampling honours `--lenient` wherever it stands: the sampling arguments
/// ask for lenient checking exactly when `--lenient` is among them.
pub proof fn lemma_sample_lenient_flag(args: Seq<Seq<char>>)
    ensures
        sample_args_spec(args) matches Ok(a) ==> (a.lenient <==> args.contains("--lenient"@)),
{
    let init = SampleScan { lenient: false, from: None, count: 1, seed: None, positional: seq![] };
    lemma_sample_scan_lenient(args, 0, init);
    if args.contains("--lenient"@) {
        let j = choose|j: int| 0 <= j < args.len() && args[j] == "--lenient"@;
        assert(args[j] == "--lenient"@);
    }
}

} // verus!
