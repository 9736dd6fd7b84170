//! The argument parser of the command line.
//!
//! Short options may be grouped (`-9fv`); long options take their value
//! after `=` or as the next word; `--` ends the options. A bad option is an
//! `ArgError`, whose message starts with "bad usage".

use vstd::prelude::*;
use vstd::string::{StrSliceExecFns, StringExecFns};

use crate::bench::BenchConfig;
use crate::cli::arg_utils::{
    chars_of, digit_run, is_digit, leading_u32, lemma_digit_run_bounds, long_command_w_arg,
    read_u32_from_str, str_eq, suffix_end,
};
use crate::cli::init::CliInit;
use crate::cli::op_mode::OpMode;
use crate::io::file_io::{NULL_OUTPUT, NUL_MARK, STDIN_MARK, STDOUT_MARK};
use crate::io::prefs::Prefs;
pub use crate::cli::parse_model::{HelpRequest, LEGACY_BLOCK_SIZE};
use crate::cli::parse_model::{
    block_spec, fast_spec, init_model, lemma_block_digit, lemma_block_end, lemma_block_letter,
    lemma_block_next, lemma_block_step_advances, block_step, BlockStep, lemma_parse_err,
    lemma_parse_next, lemma_parse_stop, lemma_short_b, lemma_short_d, lemma_short_digit,
    lemma_short_e, lemma_short_flag, lemma_short_i, lemma_short_legacy, lemma_short_next,
    lemma_short_t, legacy_short, long_flag, long_spec, name_spec, name_view, names_view,
    next_uint_spec, number_spec, pair_at_spec, parse_spec, short_flag, short_spec, short_step_spec,
    word_spec, ArgsModel, Flag,
};
use crate::cli::parse_state::{
    apply_flag_to, choose_block_size, choose_block_size_id, finish, lemma_state_fields,
    push_ignored, push_input, set_all_files, set_block_checksum, set_block_independence,
    set_dictionary, set_input, set_level, set_level_last, set_output, set_seconds, set_workers,
    start, state_model, ParseState,
};

verus! {

/// Everything the arguments chose.
#[derive(Debug)]
pub struct ParsedArgs {
    pub prefs: Prefs,
    pub op_mode: OpMode,
    /// Compression level; negative levels are fast modes.
    pub c_level: i32,
    /// Last level of a benchmark range (`-e`); -10000 when not given.
    pub c_level_last: i32,
    /// Write the legacy format (`-l`).
    pub legacy_format: bool,
    pub force_stdout: bool,
    /// `-f` was given.
    pub force_overwrite: bool,
    /// Wait for a key before leaving (`-p`).
    pub main_pause: bool,
    /// Every name is an input.
    pub multiple_inputs: bool,
    pub nb_workers: usize,
    pub input_filename: Option<String>,
    pub output_filename: Option<String>,
    pub dictionary_filename: Option<String>,
    /// Inputs collected when every name is an input.
    pub in_file_names: Vec<String>,
    /// Walk directories (`-r`).
    pub recursive: bool,
    pub block_size: usize,
    pub bench_config: BenchConfig,
    /// A help or version text was asked for: print it and stop.
    pub exit_early: bool,
    pub exe_name: String,
    /// Verbosity after `-v` and `-q`.
    pub display_level: u32,
    /// Which text to print when `exit_early` is set.
    pub help: HelpRequest,
    /// Names that were ignored because `-f` was given without `-m`.
    pub ignored_inputs: Vec<String>,
    /// Block sizes chosen by `-B`, in order, to be announced.
    pub block_size_notices: Vec<usize>,
}

/// Why the arguments were refused.
#[derive(Debug, Clone)]
pub enum ArgError {
    /// A third name without `-m` or `-f`.
    UnusedInput(String),
    /// A long option that does not exist.
    UnknownOption(String),
    /// A short option letter that does not exist.
    UnrecognisedOption(String),
    /// `--threads=N` followed by more text.
    ThreadsNotNumeric,
    /// `--fast=N` followed by more text.
    FastInvalid,
    /// `--fast=0`.
    FastZero,
    /// `--fast=` without a number.
    FastNotNumeric,
    /// `--fast` followed by text other than `=N`.
    FastTrailing,
    /// `-e` without a number.
    LevelRangeNotNumeric,
    /// `-T` without a number.
    ThreadsMissing,
    /// `-T` followed by a word that is not a number.
    ThreadsNextNotNumeric,
    /// `-i` without a number.
    SecondsNotNumeric,
    /// `-D` without a path.
    DictionaryMissing,
    /// `-B` with an identifier below 4.
    BlockSizeIdTooSmall,
    /// `-B` with a size between 8 and 31.
    BlockSizeTooSmall,
    /// `--option=` without a number.
    ExpectedNumeric(String),
    /// `--option` at the end of the arguments.
    MissingArgument(String),
    /// `--option` followed by an option.
    OptionAsArgument(String),
    /// `--option` followed by a word that is not a number.
    NextNotNumeric(String),
    /// `--option` followed by text other than `=N`.
    UnexpectedText(String),
}

/// The message of an error.
pub open spec fn arg_error_message(e: ArgError) -> Seq<char> {
    match e {
        ArgError::UnusedInput(a) => "Error: "@ + a@ + " won't be used ! Do you want multiple input files (-m) ?"@,
        ArgError::UnknownOption(a) => "bad usage: unknown option: "@ + a@,
        ArgError::UnrecognisedOption(c) => "bad usage: unrecognised option: -"@ + c@,
        ArgError::ThreadsNotNumeric => "bad usage: --threads: only numeric values are allowed"@,
        ArgError::FastInvalid => "bad usage: --fast: invalid argument"@,
        ArgError::FastZero => "bad usage: --fast: level must be > 0"@,
        ArgError::FastNotNumeric => "bad usage: --fast: expected a numeric level"@,
        ArgError::FastTrailing => "bad usage: --fast: unexpected characters after option"@,
        ArgError::LevelRangeNotNumeric => "bad usage: -e requires a numeric argument"@,
        ArgError::ThreadsMissing => "bad usage: -T requires a numeric argument"@,
        ArgError::ThreadsNextNotNumeric => "bad usage: -T: expected numeric value"@,
        ArgError::SecondsNotNumeric => "bad usage: -i requires a numeric argument"@,
        ArgError::DictionaryMissing => "bad usage: -D requires a path argument"@,
        ArgError::BlockSizeIdTooSmall => "bad usage: block size ID must be >= 4"@,
        ArgError::BlockSizeTooSmall => "bad usage: block size must be >= 32 bytes when > 7"@,
        ArgError::ExpectedNumeric(x) => "bad usage: "@ + x@ + " expected numeric argument"@,
        ArgError::MissingArgument(x) => "bad usage: "@ + x@ + ": missing command argument"@,
        ArgError::OptionAsArgument(x) => "bad usage: "@ + x@ + ": option argument cannot be another option"@,
        ArgError::NextNotNumeric(x) => "bad usage: "@ + x@ + ": expected numeric argument"@,
        ArgError::UnexpectedText(x) => "bad usage: "@ + x@ + ": unexpected text after option"@,
    }
}

fn text(s: &str) -> (r: String)
    ensures
        r@ == s@,
{
    String::from_str(s)
}

fn text2(a: &str, b: &str) -> (r: String)
    ensures
        r@ == a@ + b@,
{
    let mut r = String::from_str(a);
    r.append(b);
    r
}

fn text3(a: &str, b: &str, c: &str) -> (r: String)
    ensures
        r@ == a@ + b@ + c@,
{
    let mut r = String::from_str(a);
    r.append(b);
    r.append(c);
    r
}

impl ArgError {
    /// The message shown for the error.
    pub fn to_string(&self) -> (r: String)
        ensures
            r@ == arg_error_message(*self),
    {
        match self {
            ArgError::UnusedInput(a) => text3(
                "Error: ",
                a.as_str(),
                " won't be used ! Do you want multiple input files (-m) ?",
            ),
            ArgError::UnknownOption(a) => text2("bad usage: unknown option: ", a.as_str()),
            ArgError::UnrecognisedOption(c) => text2("bad usage: unrecognised option: -", c.as_str()),
            ArgError::ThreadsNotNumeric => text("bad usage: --threads: only numeric values are allowed"),
            ArgError::FastInvalid => text("bad usage: --fast: invalid argument"),
            ArgError::FastZero => text("bad usage: --fast: level must be > 0"),
            ArgError::FastNotNumeric => text("bad usage: --fast: expected a numeric level"),
            ArgError::FastTrailing => text("bad usage: --fast: unexpected characters after option"),
            ArgError::LevelRangeNotNumeric => text("bad usage: -e requires a numeric argument"),
            ArgError::ThreadsMissing => text("bad usage: -T requires a numeric argument"),
            ArgError::ThreadsNextNotNumeric => text("bad usage: -T: expected numeric value"),
            ArgError::SecondsNotNumeric => text("bad usage: -i requires a numeric argument"),
            ArgError::DictionaryMissing => text("bad usage: -D requires a path argument"),
            ArgError::BlockSizeIdTooSmall => text("bad usage: block size ID must be >= 4"),
            ArgError::BlockSizeTooSmall => text("bad usage: block size must be >= 32 bytes when > 7"),
            ArgError::ExpectedNumeric(x) => text3("bad usage: ", x.as_str(), " expected numeric argument"),
            ArgError::MissingArgument(x) => text3("bad usage: ", x.as_str(), ": missing command argument"),
            ArgError::OptionAsArgument(x) => text3(
                "bad usage: ",
                x.as_str(),
                ": option argument cannot be another option",
            ),
            ArgError::NextNotNumeric(x) => text3("bad usage: ", x.as_str(), ": expected numeric argument"),
            ArgError::UnexpectedText(x) => text3("bad usage: ", x.as_str(), ": unexpected text after option"),
        }
    }
}

/// The number at `start` in a word of `n` characters, which has a digit
/// there: its value (with its unit) and how many characters it takes.
fn number_at(argument: &str, start: usize, n: usize) -> (r: (u32, usize))
    requires
        n == argument@.len(),
        start < n,
        is_digit(argument@[start as int]),
    ensures
        r.0 == leading_u32(argument@.subrange(start as int, n as int)),
        r.1 == suffix_end(
            argument@.subrange(start as int, n as int),
            digit_run(argument@.subrange(start as int, n as int)) as int,
        ),
        1 <= r.1 <= n - start,
{
    let sub = argument.substring_char(start, n);
    proof {
        lemma_digit_run_bounds(sub@);
        assert(sub@[0] == argument@[start as int]);
    }
    match read_u32_from_str(sub) {
        Some((v, rest)) => {
            let consumed = (n - start) - rest.unicode_len();
            (v, consumed)
        },
        None => (0, 1),
    }
}

/// `-x` where `x` is the `-`-less value of `i32` level `v`, wrapping at the
/// bottom of the range.
fn negate(v: i32) -> (r: i32)
    ensures
        v == i32::MIN ==> r == i32::MIN,
        v != i32::MIN ==> r == -v,
{
    if v == i32::MIN {
        v
    } else {
        -v
    }
}

/// The value of a `--option`: after `=` in the same word, or the next word.
/// Returns the value and whether text follows it in the same word.
fn parse_next_uint32(rest: &str, argv: &[String], arg_idx: &mut usize, exe_name: &str) -> (r: Result<(u32, bool), ArgError>)
    requires
        *old(arg_idx) < argv.len(),
    ensures
        *old(arg_idx) <= *final(arg_idx) <= argv.len(),
        match r {
            Ok((v, more)) => next_uint_spec(rest@, names_view(argv@), *old(arg_idx) as int, exe_name@)
                == Ok::<(u32, bool, int), Seq<char>>((v, more, *final(arg_idx) as int)),
            Err(e) => next_uint_spec(rest@, names_view(argv@), *old(arg_idx) as int, exe_name@)
                == Err::<(u32, bool, int), Seq<char>>(arg_error_message(e)),
        },
{
    let n = rest.unicode_len();
    if n > 0 && rest.get_char(0) == '=' {
        let value_str = rest.substring_char(1, n);
        assert(value_str@ =~= rest@.drop_first());
        match read_u32_from_str(value_str) {
            Some((val, suffix)) => {
                proof { lemma_digit_run_bounds(value_str@); }
                let more = suffix.unicode_len() > 0;
                Ok((val, more))
            },
            None => Err(ArgError::ExpectedNumeric(text(exe_name))),
        }
    } else if n == 0 {
        *arg_idx = *arg_idx + 1;
        if *arg_idx >= argv.len() {
            return Err(ArgError::MissingArgument(text(exe_name)));
        }
        let next = argv[*arg_idx].as_str();
        assert(next@ == names_view(argv@)[*arg_idx as int]);
        if next.unicode_len() > 0 && next.get_char(0) == '-' {
            return Err(ArgError::OptionAsArgument(text(exe_name)));
        }
        match read_u32_from_str(next) {
            Some((val, suffix)) => {
                proof { lemma_digit_run_bounds(next@); }
                Ok((val, suffix.unicode_len() > 0))
            },
            None => Err(ArgError::NextNotNumeric(text(exe_name))),
        }
    } else {
        Err(ArgError::UnexpectedText(text(exe_name)))
    }
}

/// The level that `--fast` followed by `rest` sets: -1 alone, minus the
/// number after `=`.
fn fast_level(rest: &str) -> (r: Result<i32, ArgError>)
    ensures
        match r {
            Ok(l) => fast_spec(rest@) == Ok::<i32, Seq<char>>(l),
            Err(e) => fast_spec(rest@) == Err::<i32, Seq<char>>(arg_error_message(e)),
        },
{
    let n = rest.unicode_len();
    if n > 0 && rest.get_char(0) == '=' {
        let value_str = rest.substring_char(1, n);
        assert(value_str@ =~= rest@.drop_first());
        proof { lemma_digit_run_bounds(value_str@); }
        match read_u32_from_str(value_str) {
            Some((fast, remainder)) => {
                if remainder.unicode_len() > 0 {
                    return Err(ArgError::FastInvalid);
                }
                if fast == 0 {
                    return Err(ArgError::FastZero);
                }
                Ok(negate(fast as i32))
            },
            None => Err(ArgError::FastNotNumeric),
        }
    } else if n == 0 {
        Ok(-1)
    } else {
        Err(ArgError::FastTrailing)
    }
}

/// The parsed arguments hold what the final state `m` holds.
pub open spec fn parsed_as(p: ParsedArgs, m: ArgsModel) -> bool {
    &&& p.prefs == m.prefs
    &&& p.op_mode == m.op_mode
    &&& p.c_level == m.c_level
    &&& p.c_level_last == m.c_level_last
    &&& p.legacy_format == m.legacy_format
    &&& p.force_stdout == m.force_stdout
    &&& p.force_overwrite == m.force_overwrite
    &&& p.main_pause == m.main_pause
    &&& p.multiple_inputs == m.multiple_inputs
    &&& p.nb_workers == m.nb_workers
    &&& name_view(p.input_filename) == m.input
    &&& name_view(p.output_filename) == m.output
    &&& name_view(p.dictionary_filename) == m.dict
    &&& names_view(p.in_file_names@) == m.inputs
    &&& p.recursive == m.recursive
    &&& p.block_size == m.block_size
    &&& p.bench_config == m.bench
    &&& p.exit_early == m.exit_early
    &&& p.display_level == m.display_level
    &&& p.help == m.help
    &&& names_view(p.ignored_inputs@) == m.ignored
    &&& p.block_size_notices@ == m.notices
}

/// The flag a short option letter names.
fn flag_of_char(c: char) -> (r: Option<Flag>)
    ensures
        r == short_flag(c),
{
    if c == 'V' {
        Some(Flag::Version)
    } else if c == 'h' {
        Some(Flag::Usage)
    } else if c == 'H' {
        Some(Flag::LongHelp)
    } else if c == 'z' {
        Some(Flag::Compress)
    } else if c == 'l' {
        Some(Flag::Legacy)
    } else if c == 'd' {
        Some(Flag::Decompress)
    } else if c == 'c' {
        Some(Flag::PassThrough)
    } else if c == 't' {
        Some(Flag::Test)
    } else if c == 'f' {
        Some(Flag::ForceAll)
    } else if c == 'v' {
        Some(Flag::Verbose)
    } else if c == 'q' {
        Some(Flag::Quiet)
    } else if c == 'k' {
        Some(Flag::Keep)
    } else if c == 'b' {
        Some(Flag::Bench)
    } else if c == 'S' {
        Some(Flag::Separately)
    } else if c == 'r' {
        Some(Flag::Recursive)
    } else if c == 'm' {
        Some(Flag::Multiple)
    } else if c == 'p' {
        Some(Flag::Pause)
    } else {
        None
    }
}

/// The flag a long option names.
fn flag_of_word(a: &str) -> (r: Option<Flag>)
    ensures
        r == long_flag(a@),
{
    if str_eq(a, "--compress") {
        Some(Flag::Compress)
    } else if str_eq(a, "--decompress") || str_eq(a, "--uncompress") {
        Some(Flag::Decompress)
    } else if str_eq(a, "--multiple") {
        Some(Flag::Multiple)
    } else if str_eq(a, "--test") {
        Some(Flag::Test)
    } else if str_eq(a, "--force") {
        Some(Flag::Overwrite)
    } else if str_eq(a, "--no-force") {
        Some(Flag::NoOverwrite)
    } else if str_eq(a, "--stdout") || str_eq(a, "--to-stdout") {
        Some(Flag::Stdout)
    } else if str_eq(a, "--frame-crc") {
        Some(Flag::FrameCrc)
    } else if str_eq(a, "--no-frame-crc") {
        Some(Flag::NoFrameCrc)
    } else if str_eq(a, "--no-crc") {
        Some(Flag::NoCrc)
    } else if str_eq(a, "--content-size") {
        Some(Flag::ContentSize)
    } else if str_eq(a, "--no-content-size") {
        Some(Flag::NoContentSize)
    } else if str_eq(a, "--list") {
        Some(Flag::List)
    } else if str_eq(a, "--sparse") {
        Some(Flag::Sparse)
    } else if str_eq(a, "--no-sparse") {
        Some(Flag::NoSparse)
    } else if str_eq(a, "--favor-decSpeed") {
        Some(Flag::FavorDecSpeed)
    } else if str_eq(a, "--verbose") {
        Some(Flag::Verbose)
    } else if str_eq(a, "--quiet") {
        Some(Flag::Quiet)
    } else if str_eq(a, "--version") {
        Some(Flag::Version)
    } else if str_eq(a, "--help") {
        Some(Flag::Usage)
    } else if str_eq(a, "--keep") {
        Some(Flag::Keep)
    } else if str_eq(a, "--rm") {
        Some(Flag::Remove)
    } else if str_eq(a, "--best") {
        Some(Flag::Best)
    } else {
        None
    }
}

/// Chooses the block size from the number `v` of the `-B` property at `j`
/// in `argument`, which ends at `j2`.
fn block_size_prop(st: &mut ParseState, argument: &str, j: usize, v: u32, j2: usize)
    requires
        j < argument@.len(),
        is_digit(argument@[j as int]),
        number_spec(argument@, j as int).0 == v,
        number_spec(argument@, j as int).1 == j2,
        4 <= v <= 7 || 32 <= v,
    ensures
        block_step(state_model(*old(st)), argument@, j as int) matches BlockStep::Next(m2, k) && m2 == state_model(
            *final(st),
        ) && k == j2,
{
    proof { lemma_block_digit(state_model(*st), argument@, j as int); }
    if v <= 7 {
        choose_block_size_id(st, v);
    } else {
        choose_block_size(st, v);
    }
}

/// The `-B` property at `j` in the word `chars`, a number: an identifier
/// (4 to 7) or a size in bytes (32 or more). Returns where the next
/// property starts.
fn block_number(st: &mut ParseState, argument: &str, chars: &Vec<char>, j: usize) -> (r: Result<usize, ArgError>)
    requires
        chars@ == argument@,
        j < chars.len(),
        is_digit(chars@[j as int]),
    ensures
        match r {
            Ok(j2) => block_step(state_model(*old(st)), argument@, j as int) matches BlockStep::Next(m2, k)
                && m2 == state_model(*final(st)) && k == j2,
            Err(e) => block_step(state_model(*old(st)), argument@, j as int) == BlockStep::Fail(arg_error_message(e)),
        },
{
    let ghost w = argument@;
    let n = chars.len();
    let (b_val, consumed) = number_at(argument, j, n);
    assert(number_spec(w, j as int).0 == b_val);
    assert(number_spec(w, j as int).1 == j + consumed);
    if b_val < 4 {
        proof { lemma_block_digit(state_model(*st), w, j as int); }
        return Err(ArgError::BlockSizeIdTooSmall);
    }
    if 7 < b_val && b_val < 32 {
        proof { lemma_block_digit(state_model(*st), w, j as int); }
        return Err(ArgError::BlockSizeTooSmall);
    }
    block_size_prop(st, argument, j, b_val, j + consumed);
    Ok(j + consumed)
}

/// The `-B` property `D` (linked blocks), `I` (independent blocks) or `X`
/// (block checksums) at `j` in `argument`.
fn block_letter(st: &mut ParseState, argument: &str, c: char, j: usize)
    requires
        j < argument@.len(),
        argument@[j as int] == c,
        c == 'D' || c == 'I' || c == 'X',
    ensures
        block_step(state_model(*old(st)), argument@, j as int) matches BlockStep::Next(m2, k) && m2 == state_model(
            *final(st),
        ) && k == j + 1,
{
    proof { lemma_block_letter(state_model(*st), argument@, j as int); }
    if c == 'X' {
        set_block_checksum(st);
    } else {
        set_block_independence(st, c == 'I');
    }
}

/// The `-B` property at `j` in the word `chars`: `D` linked blocks, `I`
/// independent blocks, `X` block checksums, or a number. Returns where the
/// next property starts, or `None` at any other character.
fn block_prop(st: &mut ParseState, argument: &str, chars: &Vec<char>, j: usize) -> (r: Result<Option<usize>, ArgError>)
    requires
        chars@ == argument@,
        j < chars.len(),
    ensures
        match r {
            Ok(Some(j2)) => block_step(state_model(*old(st)), argument@, j as int) matches BlockStep::Next(m2, k)
                && m2 == state_model(*final(st)) && k == j2,
            Ok(None) => block_step(state_model(*old(st)), argument@, j as int) is Stop && *final(st) == *old(st),
            Err(e) => block_step(state_model(*old(st)), argument@, j as int) == BlockStep::Fail(arg_error_message(e)),
        },
{
    let c = chars[j];
    if c == 'D' || c == 'I' || c == 'X' {
        block_letter(st, argument, c, j);
        Ok(Some(j + 1))
    } else if '0' <= c && c <= '9' {
        match block_number(st, argument, chars, j) {
            Ok(j2) => Ok(Some(j2)),
            Err(e) => Err(e),
        }
    } else {
        proof { lemma_block_letter(state_model(*st), argument@, j as int); }
        Ok(None)
    }
}

/// The `-B` properties that start at `j0` in the word `chars`, up to the
/// first other character. Returns the index where they stop.
fn parse_block_props(st: &mut ParseState, argument: &str, chars: &Vec<char>, j0: usize) -> (r: Result<usize, ArgError>)
    requires
        chars@ == argument@,
        j0 <= chars.len(),
    ensures
        match r {
            Ok(j) => j0 <= j <= chars.len() && (block_spec(state_model(*old(st)), argument@, j0 as int) matches Ok(
                (m2, j2),
            ) && m2 == state_model(*final(st)) && j2 == j),
            Err(e) => block_spec(state_model(*old(st)), argument@, j0 as int) == Err::<(ArgsModel, int), Seq<char>>(
                arg_error_message(e),
            ),
        },
{
    let ghost w = argument@;
    let ghost goal = block_spec(state_model(*st), w, j0 as int);
    let n = chars.len();
    let mut j = j0;
    proof {
        if j >= n {
            lemma_block_end(state_model(*st), w, j as int);
        }
    }
    while j < n
        invariant
            chars@ == w,
            w == argument@,
            n == chars.len(),
            j0 <= j <= n,
            block_spec(state_model(*st), w, j as int) == goal,
            goal == block_spec(state_model(*old(st)), w, j0 as int),
            j >= n ==> (goal matches Ok((m2, j2)) && m2 == state_model(*st) && j2 == j),
        ensures
            j0 <= j <= n,
            goal matches Ok((m2, j2)) && m2 == state_model(*st) && j2 == j,
            goal == block_spec(state_model(*old(st)), w, j0 as int),
        decreases n - j,
    {
        let ghost m = state_model(*st);
        let ghost j_before = j as int;
        proof {
            lemma_block_next(m, w, j_before);
            lemma_block_step_advances(m, w, j_before);
        }
        match block_prop(st, argument, chars, j) {
            Ok(Some(j2)) => {
                j = j2;
                proof {
                    if j >= n {
                        lemma_block_end(state_model(*st), w, j as int);
                    }
                }
            },
            Ok(None) => {
                break;
            },
            Err(e) => {
                return Err(e);
            },
        }
    }
    Ok(j)
}

/// Whether `chars` holds `a` and then `b` at `k`.
fn pair_at(chars: &Vec<char>, k: usize, a: char, b: char) -> (r: bool)
    ensures
        r == pair_at_spec(chars@, k as int, a, b),
{
    k < chars.len() && k + 1 < chars.len() && chars[k] == a && chars[k + 1] == b
}

/// One short option at `pos` of word `i` has been read: its result `r` is
/// what `short_step_spec` gives from state `m0`, the state is now `m1` and
/// the last word taken is `i1`.
spec fn short_done(
    r: Result<usize, ArgError>,
    m0: ArgsModel,
    w: Seq<char>,
    pos: int,
    av: Seq<Seq<char>>,
    i0: int,
    m1: ArgsModel,
    i1: int,
) -> bool {
    match r {
        Ok(p2) => short_step_spec(m0, w, pos, av, i0) matches Ok((m2, q, i2)) && m2 == m1 && q == p2 && i2 == i1,
        Err(e) => short_step_spec(m0, w, pos, av, i0) == Err::<(ArgsModel, int, int), Seq<char>>(arg_error_message(e)),
    }
}

/// A legacy short option at `pos`: `-c0`, `-c1`, `-c2`, `-hc` set a level,
/// `-y` overwrites.
fn short_legacy(st: &mut ParseState, argument: &str, chars: &Vec<char>, pos: usize, argv: &[String], arg_idx: usize) -> (p2: usize)
    requires
        chars@ == argument@,
        1 <= pos < chars.len(),
        legacy_short(state_model(*old(st)), argument@, pos as int),
    ensures
        short_done(Ok(p2), state_model(*old(st)), argument@, pos as int, names_view(argv@), arg_idx as int, state_model(*final(st)), arg_idx as int),
        pos < p2 <= chars.len(),
{
    proof { lemma_short_legacy(state_model(*st), argument@, pos as int, names_view(argv@), arg_idx as int); }
    if chars[pos] == 'y' {
        apply_flag_to(st, Flag::Overwrite);
        pos + 1
    } else {
        let v: i32 = if pair_at(chars, pos, 'c', '0') {
            0
        } else if pair_at(chars, pos, 'c', '1') {
            9
        } else {
            12
        };
        set_level(st, v);
        pos + 2
    }
}

/// A level given as a number at `pos`.
fn short_level(st: &mut ParseState, argument: &str, chars: &Vec<char>, pos: usize, argv: &[String], arg_idx: usize) -> (p2: usize)
    requires
        chars@ == argument@,
        1 <= pos < chars.len(),
        !legacy_short(state_model(*old(st)), argument@, pos as int),
        is_digit(argument@[pos as int]),
    ensures
        short_done(Ok(p2), state_model(*old(st)), argument@, pos as int, names_view(argv@), arg_idx as int, state_model(*final(st)), arg_idx as int),
        pos < p2 <= chars.len(),
{
    proof { lemma_short_digit(state_model(*st), argument@, pos as int, names_view(argv@), arg_idx as int); }
    let (val, consumed) = number_at(argument, pos, chars.len());
    set_level(st, val as i32);
    pos + consumed
}

/// `-e` at `pos`: the last level of a benchmark range.
fn short_e(st: &mut ParseState, argument: &str, chars: &Vec<char>, pos: usize, argv: &[String], arg_idx: usize) -> (r: Result<usize, ArgError>)
    requires
        chars@ == argument@,
        1 <= pos < chars.len(),
        !legacy_short(state_model(*old(st)), argument@, pos as int),
        argument@[pos as int] == 'e',
    ensures
        short_done(r, state_model(*old(st)), argument@, pos as int, names_view(argv@), arg_idx as int, state_model(*final(st)), arg_idx as int),
        r matches Ok(p2) ==> pos < p2 <= chars.len(),
{
    proof { lemma_short_e(state_model(*st), argument@, pos as int, names_view(argv@), arg_idx as int); }
    let n = chars.len();
    let next = pos + 1;
    if next < n && '0' <= chars[next] && chars[next] <= '9' {
        let (val, consumed) = number_at(argument, next, n);
        set_level_last(st, val as i32);
        Ok(next + consumed)
    } else {
        Err(ArgError::LevelRangeNotNumeric)
    }
}

/// `-T` at `pos`: the number of workers, in the word or the next one.
fn short_t(st: &mut ParseState, argument: &str, chars: &Vec<char>, pos: usize, argv: &[String], arg_idx: &mut usize) -> (r: Result<usize, ArgError>)
    requires
        chars@ == argument@,
        1 <= pos < chars.len(),
        *old(arg_idx) < argv.len(),
        !legacy_short(state_model(*old(st)), argument@, pos as int),
        argument@[pos as int] == 'T',
    ensures
        short_done(r, state_model(*old(st)), argument@, pos as int, names_view(argv@), *old(arg_idx) as int, state_model(*final(st)), *final(arg_idx) as int),
        *old(arg_idx) <= *final(arg_idx) < argv.len(),
        r matches Ok(p2) ==> pos < p2 <= chars.len(),
{
    proof { lemma_short_t(state_model(*st), argument@, pos as int, names_view(argv@), *arg_idx as int); }
    let n = chars.len();
    let next = pos + 1;
    if next < n {
        if '0' <= chars[next] && chars[next] <= '9' {
            let (val, consumed) = number_at(argument, next, n);
            set_workers(st, val as usize);
            Ok(next + consumed)
        } else {
            Err(ArgError::ThreadsMissing)
        }
    } else if *arg_idx + 1 >= argv.len() {
        Err(ArgError::ThreadsMissing)
    } else {
        assert(argv@[*arg_idx + 1]@ == names_view(argv@)[*arg_idx + 1]);
        match read_u32_from_str(argv[*arg_idx + 1].as_str()) {
            Some((val, _rest)) => {
                *arg_idx = *arg_idx + 1;
                set_workers(st, val as usize);
                Ok(n)
            },
            None => Err(ArgError::ThreadsNextNotNumeric),
        }
    }
}

/// `-D` at `pos`: the dictionary, in the word or the next one.
fn short_d(st: &mut ParseState, argument: &str, chars: &Vec<char>, pos: usize, argv: &[String], arg_idx: &mut usize) -> (r: Result<usize, ArgError>)
    requires
        chars@ == argument@,
        1 <= pos < chars.len(),
        *old(arg_idx) < argv.len(),
        !legacy_short(state_model(*old(st)), argument@, pos as int),
        argument@[pos as int] == 'D',
    ensures
        short_done(r, state_model(*old(st)), argument@, pos as int, names_view(argv@), *old(arg_idx) as int, state_model(*final(st)), *final(arg_idx) as int),
        *old(arg_idx) <= *final(arg_idx) < argv.len(),
        r matches Ok(p2) ==> pos < p2 <= chars.len(),
{
    proof { lemma_short_d(state_model(*st), argument@, pos as int, names_view(argv@), *arg_idx as int); }
    let n = chars.len();
    let next = pos + 1;
    if next < n {
        set_dictionary(st, text(argument.substring_char(next, n)));
        Ok(n)
    } else if *arg_idx + 1 >= argv.len() {
        Err(ArgError::DictionaryMissing)
    } else {
        *arg_idx = *arg_idx + 1;
        assert(argv@[*arg_idx as int]@ == names_view(argv@)[*arg_idx as int]);
        set_dictionary(st, argv[*arg_idx].clone());
        Ok(n)
    }
}

/// `-B` at `pos`: the block properties.
fn short_b(st: &mut ParseState, argument: &str, chars: &Vec<char>, pos: usize, argv: &[String], arg_idx: usize) -> (r: Result<usize, ArgError>)
    requires
        chars@ == argument@,
        1 <= pos < chars.len(),
        !legacy_short(state_model(*old(st)), argument@, pos as int),
        argument@[pos as int] == 'B',
    ensures
        short_done(r, state_model(*old(st)), argument@, pos as int, names_view(argv@), arg_idx as int, state_model(*final(st)), arg_idx as int),
        r matches Ok(p2) ==> pos < p2 <= chars.len(),
{
    proof { lemma_short_b(state_model(*st), argument@, pos as int, names_view(argv@), arg_idx as int); }
    parse_block_props(st, argument, chars, pos + 1)
}

/// `-i` at `pos`: the benchmark duration.
fn short_i(st: &mut ParseState, argument: &str, chars: &Vec<char>, pos: usize, argv: &[String], arg_idx: usize) -> (r: Result<usize, ArgError>)
    requires
        chars@ == argument@,
        1 <= pos < chars.len(),
        !legacy_short(state_model(*old(st)), argument@, pos as int),
        argument@[pos as int] == 'i',
    ensures
        short_done(r, state_model(*old(st)), argument@, pos as int, names_view(argv@), arg_idx as int, state_model(*final(st)), arg_idx as int),
        r matches Ok(p2) ==> pos < p2 <= chars.len(),
{
    proof { lemma_short_i(state_model(*st), argument@, pos as int, names_view(argv@), arg_idx as int); }
    let n = chars.len();
    let next = pos + 1;
    if next < n && '0' <= chars[next] && chars[next] <= '9' {
        let (iters, consumed) = number_at(argument, next, n);
        set_seconds(st, iters);
        Ok(next + consumed)
    } else {
        Err(ArgError::SecondsNotNumeric)
    }
}

/// A short option at `pos` that takes no value.
fn short_flag_option(st: &mut ParseState, argument: &str, chars: &Vec<char>, pos: usize, argv: &[String], arg_idx: usize) -> (r: Result<usize, ArgError>)
    requires
        chars@ == argument@,
        1 <= pos < chars.len(),
        !legacy_short(state_model(*old(st)), argument@, pos as int),
        !is_digit(argument@[pos as int]),
        argument@[pos as int] != 'e' && argument@[pos as int] != 'T' && argument@[pos as int] != 'D'
            && argument@[pos as int] != 'B' && argument@[pos as int] != 'i',
    ensures
        short_done(r, state_model(*old(st)), argument@, pos as int, names_view(argv@), arg_idx as int, state_model(*final(st)), arg_idx as int),
        r matches Ok(p2) ==> pos < p2 <= chars.len(),
{
    proof { lemma_short_flag(state_model(*st), argument@, pos as int, names_view(argv@), arg_idx as int); }
    match flag_of_char(chars[pos]) {
        Some(f) => {
            apply_flag_to(st, f);
            Ok(pos + 1)
        },
        None => Err(ArgError::UnrecognisedOption(text(argument.substring_char(pos, pos + 1)))),
    }
}

/// The short option at `pos` in the word `argv[arg_idx]`. Returns where the
/// next option starts.
fn short_option(st: &mut ParseState, argument: &str, chars: &Vec<char>, pos: usize, argv: &[String], arg_idx: &mut usize) -> (r: Result<usize, ArgError>)
    requires
        chars@ == argument@,
        1 <= pos < chars.len(),
        *old(arg_idx) < argv.len(),
    ensures
        short_done(r, state_model(*old(st)), argument@, pos as int, names_view(argv@), *old(arg_idx) as int, state_model(*final(st)), *final(arg_idx) as int),
        *old(arg_idx) <= *final(arg_idx) < argv.len(),
        r matches Ok(p2) ==> pos < p2 <= chars.len(),
{
    proof { lemma_state_fields(*st); }
    let c = chars[pos];
    if st.lz4c_legacy && (pair_at(chars, pos, 'c', '0') || pair_at(chars, pos, 'c', '1') || pair_at(chars, pos, 'c', '2')
        || pair_at(chars, pos, 'h', 'c') || c == 'y') {
        return Ok(short_legacy(st, argument, chars, pos, argv, *arg_idx));
    }
    if '0' <= c && c <= '9' {
        return Ok(short_level(st, argument, chars, pos, argv, *arg_idx));
    }
    if c == 'e' {
        return short_e(st, argument, chars, pos, argv, *arg_idx);
    }
    if c == 'T' {
        return short_t(st, argument, chars, pos, argv, arg_idx);
    }
    if c == 'D' {
        return short_d(st, argument, chars, pos, argv, arg_idx);
    }
    if c == 'B' {
        return short_b(st, argument, chars, pos, argv, *arg_idx);
    }
    if c == 'i' {
        return short_i(st, argument, chars, pos, argv, *arg_idx);
    }
    short_flag_option(st, argument, chars, pos, argv, *arg_idx)
}

/// The short options of the word `argv[arg_idx]` (`-` and at least one
/// letter). `-T` and `-D` may take the next word as their value.
fn parse_short_options(st: &mut ParseState, argument: &str, argv: &[String], arg_idx: &mut usize) -> (r: Result<(), ArgError>)
    requires
        *old(arg_idx) < argv.len(),
        argument@.len() >= 2,
        !old(st).exit_early,
    ensures
        *old(arg_idx) <= *final(arg_idx) < argv.len(),
        match r {
            Ok(()) => short_spec(state_model(*old(st)), argument@, 1, names_view(argv@), *old(arg_idx) as int)
                == Ok::<(ArgsModel, int), Seq<char>>((state_model(*final(st)), *final(arg_idx) as int)),
            Err(e) => short_spec(state_model(*old(st)), argument@, 1, names_view(argv@), *old(arg_idx) as int)
                == Err::<(ArgsModel, int), Seq<char>>(arg_error_message(e)),
        },
{
    let ghost w = argument@;
    let ghost av = names_view(argv@);
    let ghost goal = short_spec(state_model(*st), w, 1, av, *arg_idx as int);
    let chars = chars_of(argument);
    let n = chars.len();
    let mut char_pos: usize = 1;
    proof { lemma_state_fields(*st); }
    while char_pos < n
        invariant_except_break
            chars@ == w,
            w == argument@,
            av == names_view(argv@),
            n == chars.len(),
            1 <= char_pos,
            *old(arg_idx) <= *arg_idx < argv.len(),
            !state_model(*st).exit_early,
            short_spec(state_model(*st), w, char_pos as int, av, *arg_idx as int) == goal,
            goal == short_spec(state_model(*old(st)), w, 1, av, *old(arg_idx) as int),
        ensures
            *old(arg_idx) <= *arg_idx < argv.len(),
            goal == Ok::<(ArgsModel, int), Seq<char>>((state_model(*st), *arg_idx as int)),
            goal == short_spec(state_model(*old(st)), w, 1, av, *old(arg_idx) as int),
        decreases n - char_pos,
    {
        let ghost m = state_model(*st);
        let ghost i = *arg_idx as int;
        let ghost pos = char_pos as int;
        match short_option(st, argument, &chars, char_pos, argv, arg_idx) {
            Ok(p2) => {
                char_pos = p2;
            },
            Err(e) => {
                return Err(e);
            },
        }
        proof { lemma_state_fields(*st); }
        if st.exit_early {
            break;
        }
        proof {
            lemma_short_next(m, w, pos, av, i, state_model(*st), char_pos as int, *arg_idx as int);
        }
    }
    Ok(())
}

/// The long option `argv[arg_idx]` (it starts with `--` and is not `--`).
fn parse_long_option(st: &mut ParseState, argument: &str, argv: &[String], arg_idx: &mut usize, exe_name: &str) -> (r: Result<(), ArgError>)
    requires
        *old(arg_idx) < argv.len(),
    ensures
        *old(arg_idx) <= *final(arg_idx) <= argv.len(),
        match r {
            Ok(()) => *final(arg_idx) < argv.len() && long_spec(
                state_model(*old(st)),
                argument@,
                names_view(argv@),
                *old(arg_idx) as int,
                exe_name@,
            ) == Ok::<(ArgsModel, int), Seq<char>>((state_model(*final(st)), *final(arg_idx) as int)),
            Err(e) => long_spec(state_model(*old(st)), argument@, names_view(argv@), *old(arg_idx) as int, exe_name@)
                == Err::<(ArgsModel, int), Seq<char>>(arg_error_message(e)),
        },
        final(st).exit_early == state_model(*final(st)).exit_early,
{
    proof { lemma_state_fields(*st); }
    if let Some(f) = flag_of_word(argument) {
        apply_flag_to(st, f);
        proof { lemma_state_fields(*st); }
        return Ok(());
    }
    if let Some(rest) = long_command_w_arg(argument, "--threads") {
        match parse_next_uint32(rest, argv, arg_idx, exe_name) {
            Ok((val, more)) => {
                if more {
                    return Err(ArgError::ThreadsNotNumeric);
                }
                set_workers(st, val as usize);
                proof { lemma_state_fields(*st); }
                Ok(())
            },
            Err(e) => Err(e),
        }
    } else if let Some(rest) = long_command_w_arg(argument, "--fast") {
        match fast_level(rest) {
            Ok(l) => {
                set_level(st, l);
                proof { lemma_state_fields(*st); }
                Ok(())
            },
            Err(e) => Err(e),
        }
    } else {
        Err(ArgError::UnknownOption(text(argument)))
    }
}

/// A word that is a name: an input, then the output, then more inputs when
/// every name is an input.
fn add_name(st: &mut ParseState, argv: &[String], idx: usize) -> (r: Result<(), ArgError>)
    requires
        idx < argv.len(),
    ensures
        match r {
            Ok(()) => name_spec(state_model(*old(st)), argv@[idx as int]@) == Ok::<ArgsModel, Seq<char>>(
                state_model(*final(st)),
            ),
            Err(e) => name_spec(state_model(*old(st)), argv@[idx as int]@) == Err::<ArgsModel, Seq<char>>(
                arg_error_message(e),
            ),
        },
        final(st).exit_early == old(st).exit_early,
{
    proof { lemma_state_fields(*st); }
    let argument = argv[idx].as_str();
    if st.multiple_inputs {
        push_input(st, argv[idx].clone());
    } else if st.input_filename.is_none() {
        set_input(st, argv[idx].clone());
    } else if st.output_filename.is_none() {
        if str_eq(argument, NULL_OUTPUT) {
            set_output(st, text(NUL_MARK));
        } else {
            set_output(st, argv[idx].clone());
        }
    } else if st.force_overwrite {
        push_ignored(st, argv[idx].clone());
    } else {
        return Err(ArgError::UnusedInput(argv[idx].clone()));
    }
    proof { lemma_state_fields(*st); }
    Ok(())
}

/// Parses `argv` (the words after the program name) from the starting state
/// `init`; `exe_name` is the program name the help texts show. The result
/// is what `parse_spec` gives from `init_model(init)`: the final state, or
/// the error of the first word refused.
pub fn parse_args_from(init: CliInit, exe_name: &str, argv: &[String]) -> (r: Result<ParsedArgs, ArgError>)
    ensures
        match r {
            Ok(p) => p.exe_name@ == exe_name@ && (parse_spec(init_model(init), names_view(argv@), 0, exe_name@) matches Ok(m)
                && parsed_as(p, m)),
            Err(e) => parse_spec(init_model(init), names_view(argv@), 0, exe_name@) == Err::<ArgsModel, Seq<char>>(
                arg_error_message(e),
            ),
        },
{
    let ghost av = names_view(argv@);
    let ghost goal = parse_spec(init_model(init), av, 0, exe_name@);
    let mut st = start(init);
    let mut arg_idx: usize = 0;
    proof { lemma_state_fields(st); }
    while arg_idx < argv.len()
        invariant_except_break
            av == names_view(argv@),
            goal == parse_spec(init_model(init), av, 0, exe_name@),
            arg_idx <= argv.len(),
            !st.exit_early,
            st.exit_early == state_model(st).exit_early,
            parse_spec(state_model(st), av, arg_idx as int, exe_name@) == goal,
        ensures
            goal == Ok::<ArgsModel, Seq<char>>(state_model(st)),
            goal == parse_spec(init_model(init), av, 0, exe_name@),
            av == names_view(argv@),
        decreases argv.len() - arg_idx,
    {
        let ghost m = state_model(st);
        let ghost i = arg_idx as int;
        proof { lemma_state_fields(st); }
        let argument = argv[arg_idx].as_str();
        assert(argument@ == av[i]);
        let n = argument.unicode_len();
        if n == 0 {
            arg_idx += 1;
            proof { lemma_parse_next(m, av, i, exe_name@, state_model(st), i); }
            continue;
        }
        if st.all_arguments_are_files || argument.get_char(0) != '-' {
            match add_name(&mut st, argv, arg_idx) {
                Ok(()) => {},
                Err(e) => {
                    proof { lemma_parse_err(m, av, i, exe_name@, arg_error_message(e)); }
                    return Err(e);
                },
            }
            arg_idx += 1;
            proof {
                lemma_state_fields(st);
                lemma_parse_next(m, av, i, exe_name@, state_model(st), i);
            }
            continue;
        }
        if n == 1 {
            if st.input_filename.is_none() {
                set_input(&mut st, text(STDIN_MARK));
            } else {
                set_output(&mut st, text(STDOUT_MARK));
            }
            arg_idx += 1;
            proof {
                lemma_state_fields(st);
                lemma_parse_next(m, av, i, exe_name@, state_model(st), i);
            }
            continue;
        }
        if argument.get_char(1) == '-' {
            if n == 2 {
                set_all_files(&mut st);
                arg_idx += 1;
                proof {
                    lemma_state_fields(st);
                    lemma_parse_next(m, av, i, exe_name@, state_model(st), i);
                }
                continue;
            }
            match parse_long_option(&mut st, argument, argv, &mut arg_idx, exe_name) {
                Ok(()) => {},
                Err(e) => {
                    proof { lemma_parse_err(m, av, i, exe_name@, arg_error_message(e)); }
                    return Err(e);
                },
            }
        } else {
            match parse_short_options(&mut st, argument, argv, &mut arg_idx) {
                Ok(()) => {},
                Err(e) => {
                    proof { lemma_parse_err(m, av, i, exe_name@, arg_error_message(e)); }
                    return Err(e);
                },
            }
        }
        assert(word_spec(m, av, i, exe_name@) == Ok::<(ArgsModel, int), Seq<char>>((state_model(st), arg_idx as int)));
        proof { lemma_state_fields(st); }
        if st.exit_early {
            proof { lemma_parse_stop(m, av, i, exe_name@, state_model(st), arg_idx as int); }
            break;
        }
        proof { lemma_parse_next(m, av, i, exe_name@, state_model(st), arg_idx as int); }
        arg_idx += 1;
    }
    Ok(finish(st, exe_name))
}

} // verus!
