//! What the argument parser does, stated over views: the state it keeps
//! between words and how each word changes it.

use vstd::prelude::*;

use crate::bench::BenchConfig;
use crate::bench::config::NBSECONDS;
use crate::cli::arg_utils::{digit_run, is_digit, leading_u32, lemma_digit_run_bounds, suffix_end};
use crate::cli::help::LZ4HC_CLEVEL_MAX;
use crate::cli::init::CliInit;
use crate::cli::op_mode::OpMode;
use crate::io::file_io::{NULL_OUTPUT, NUL_MARK, STDIN_MARK, STDOUT_MARK};
use crate::io::prefs::{block_size_id_for, block_size_of_id, clamp_block_size, Prefs};

verus! {

/// Block size of the legacy format (`-l`): 8 MiB.
pub const LEGACY_BLOCK_SIZE: usize = 8388608;

/// A text that the command line was asked to print before stopping.
#[derive(Debug, Clone, Copy, PartialEq, Eq, Structural)]
pub enum HelpRequest {
    NoHelp,
    /// The version banner (`-V`, `--version`).
    Version,
    /// The usage with the advanced options (`-h`, `--help`).
    Usage,
    /// The long help (`-H`).
    LongHelp,
}

/// The parser's state between words, names taken by their characters.
pub struct ArgsModel {
    pub prefs: Prefs,
    pub op_mode: OpMode,
    pub c_level: i32,
    pub c_level_last: i32,
    pub legacy_format: bool,
    pub force_stdout: bool,
    pub force_overwrite: bool,
    pub main_pause: bool,
    pub multiple_inputs: bool,
    pub all_files: bool,
    pub nb_workers: usize,
    pub input: Option<Seq<char>>,
    pub output: Option<Seq<char>>,
    pub dict: Option<Seq<char>>,
    pub inputs: Seq<Seq<char>>,
    pub recursive: bool,
    pub block_size: usize,
    pub bench: BenchConfig,
    pub exit_early: bool,
    pub display_level: u32,
    pub help: HelpRequest,
    pub ignored: Seq<Seq<char>>,
    pub notices: Seq<usize>,
    pub legacy: bool,
}

/// The characters of a name, if there is one.
pub open spec fn name_view(o: Option<String>) -> Option<Seq<char>> {
    match o {
        Some(s) => Some(s@),
        None => None,
    }
}

/// The characters of each name.
pub open spec fn names_view(v: Seq<String>) -> Seq<Seq<char>> {
    v.map_values(|s: String| s@)
}

/// The state before the first word: what the program name chose, nothing
/// named yet, and the benchmark defaults.
pub open spec fn init_model(init: CliInit) -> ArgsModel {
    ArgsModel {
        prefs: init.prefs,
        op_mode: init.op_mode,
        c_level: init.c_level,
        c_level_last: -10000i32,
        legacy_format: false,
        force_stdout: init.force_stdout,
        force_overwrite: false,
        main_pause: false,
        multiple_inputs: init.multiple_inputs,
        all_files: false,
        nb_workers: init.nb_workers,
        input: None,
        output: name_view(init.output_filename),
        dict: None,
        inputs: Seq::empty(),
        recursive: false,
        block_size: init.prefs.block_size,
        bench: BenchConfig {
            display_level: 2,
            nb_seconds: NBSECONDS,
            block_size: 0,
            additional_param: 0,
            bench_separately: false,
            decode_only: false,
            skip_checksums: false,
        },
        exit_early: false,
        display_level: init.display_level,
        help: HelpRequest::NoHelp,
        ignored: Seq::empty(),
        notices: Seq::empty(),
        legacy: init.lz4c_legacy,
    }
}

/// One more verbosity level, stopping at the top.
pub open spec fn more_verbose_spec(v: u32) -> u32 {
    if v < u32::MAX { (v + 1) as u32 } else { v }
}

/// One less verbosity level, stopping at 0.
pub open spec fn less_verbose_spec(v: u32) -> u32 {
    if v > 0 { (v - 1) as u32 } else { 0 }
}

/// An option that takes no value, named by what it does.
#[derive(Debug, Clone, Copy, PartialEq, Eq, Structural)]
pub enum Flag {
    /// Print the version and stop (`-V`, `--version`).
    Version,
    /// Print the usage and stop (`-h`, `--help`).
    Usage,
    /// Print the long help and stop (`-H`).
    LongHelp,
    /// `-z`, `--compress`.
    Compress,
    /// `-d`, `--decompress`, `--uncompress`: also benchmark decoding only.
    Decompress,
    /// `-t`, `--test`.
    Test,
    /// `--list`.
    List,
    /// `-b`.
    Bench,
    /// `-l`: the legacy format, with 8 MiB blocks.
    Legacy,
    /// `-c`: write to standard output, passing through what is not a frame.
    PassThrough,
    /// `--stdout`, `--to-stdout`.
    Stdout,
    /// `-f`: overwrite, and keep going past extra names.
    ForceAll,
    /// `--force`, and `-y` of the legacy options.
    Overwrite,
    /// `--no-force`.
    NoOverwrite,
    /// `-v`, `--verbose`.
    Verbose,
    /// `-q`, `--quiet`.
    Quiet,
    /// `-k`, `--keep`.
    Keep,
    /// `--rm`.
    Remove,
    /// `-S`: benchmark each file on its own.
    Separately,
    /// `-r`.
    Recursive,
    /// `-m`, `--multiple`.
    Multiple,
    /// `-p`.
    Pause,
    /// `--frame-crc`.
    FrameCrc,
    /// `--no-frame-crc`.
    NoFrameCrc,
    /// `--no-crc`.
    NoCrc,
    /// `--content-size`.
    ContentSize,
    /// `--no-content-size`.
    NoContentSize,
    /// `--sparse`.
    Sparse,
    /// `--no-sparse`.
    NoSparse,
    /// `--favor-decSpeed`.
    FavorDecSpeed,
    /// `--best`.
    Best,
}

/// The flag a short option letter names, if any.
pub open spec fn short_flag(c: char) -> Option<Flag> {
    if c == 'V' {
        Some(Flag::Version)
    } else if c == 'h' {
        Some(Flag::Usage)
    } else if c == 'H' {
        Some(Flag::LongHelp)
    } else if c == 'z' {
        Some(Flag::Compress)
    } else if c == 'l' {
        Some(Flag::Legacy)
    } else if c == 'd' {
        Some(Flag::Decompress)
    } else if c == 'c' {
        Some(Flag::PassThrough)
    } else if c == 't' {
        Some(Flag::Test)
    } else if c == 'f' {
        Some(Flag::ForceAll)
    } else if c == 'v' {
        Some(Flag::Verbose)
    } else if c == 'q' {
        Some(Flag::Quiet)
    } else if c == 'k' {
        Some(Flag::Keep)
    } else if c == 'b' {
        Some(Flag::Bench)
    } else if c == 'S' {
        Some(Flag::Separately)
    } else if c == 'r' {
        Some(Flag::Recursive)
    } else if c == 'm' {
        Some(Flag::Multiple)
    } else if c == 'p' {
        Some(Flag::Pause)
    } else {
        None
    }
}

/// The flag a long option names, if any.
pub open spec fn long_flag(w: Seq<char>) -> Option<Flag> {
    if w == "--compress"@ {
        Some(Flag::Compress)
    } else if w == "--decompress"@ || w == "--uncompress"@ {
        Some(Flag::Decompress)
    } else if w == "--multiple"@ {
        Some(Flag::Multiple)
    } else if w == "--test"@ {
        Some(Flag::Test)
    } else if w == "--force"@ {
        Some(Flag::Overwrite)
    } else if w == "--no-force"@ {
        Some(Flag::NoOverwrite)
    } else if w == "--stdout"@ || w == "--to-stdout"@ {
        Some(Flag::Stdout)
    } else if w == "--frame-crc"@ {
        Some(Flag::FrameCrc)
    } else if w == "--no-frame-crc"@ {
        Some(Flag::NoFrameCrc)
    } else if w == "--no-crc"@ {
        Some(Flag::NoCrc)
    } else if w == "--content-size"@ {
        Some(Flag::ContentSize)
    } else if w == "--no-content-size"@ {
        Some(Flag::NoContentSize)
    } else if w == "--list"@ {
        Some(Flag::List)
    } else if w == "--sparse"@ {
        Some(Flag::Sparse)
    } else if w == "--no-sparse"@ {
        Some(Flag::NoSparse)
    } else if w == "--favor-decSpeed"@ {
        Some(Flag::FavorDecSpeed)
    } else if w == "--verbose"@ {
        Some(Flag::Verbose)
    } else if w == "--quiet"@ {
        Some(Flag::Quiet)
    } else if w == "--version"@ {
        Some(Flag::Version)
    } else if w == "--help"@ {
        Some(Flag::Usage)
    } else if w == "--keep"@ {
        Some(Flag::Keep)
    } else if w == "--rm"@ {
        Some(Flag::Remove)
    } else if w == "--best"@ {
        Some(Flag::Best)
    } else {
        None
    }
}

/// What a flag does to the preferences.
#[verifier::opaque]
pub open spec fn flag_prefs(p: Prefs, f: Flag) -> Prefs {
    match f {
        Flag::Legacy => Prefs { block_size: LEGACY_BLOCK_SIZE, ..p },
        Flag::PassThrough => Prefs { pass_through: true, ..p },
        Flag::ForceAll | Flag::Overwrite => Prefs { overwrite: true, ..p },
        Flag::NoOverwrite => Prefs { overwrite: false, ..p },
        Flag::Keep => Prefs { remove_src_file: false, ..p },
        Flag::Remove => Prefs { remove_src_file: true, ..p },
        Flag::FrameCrc => Prefs { stream_checksum: true, ..p },
        Flag::NoFrameCrc => Prefs { stream_checksum: false, ..p },
        Flag::NoCrc => Prefs { stream_checksum: false, block_checksum: false, ..p },
        Flag::ContentSize => Prefs { content_size_flag: true, ..p },
        Flag::NoContentSize => Prefs { content_size_flag: false, ..p },
        Flag::Sparse => Prefs { sparse_file_support: 2, ..p },
        Flag::NoSparse => Prefs { sparse_file_support: 0, ..p },
        Flag::FavorDecSpeed => Prefs { favor_dec_speed: true, ..p },
        _ => p,
    }
}

/// What a flag does to the benchmark settings.
#[verifier::opaque]
pub open spec fn flag_bench(b: BenchConfig, f: Flag) -> BenchConfig {
    match f {
        Flag::Decompress => BenchConfig { decode_only: true, ..b },
        Flag::Separately => BenchConfig { bench_separately: true, ..b },
        Flag::FrameCrc => BenchConfig { skip_checksums: false, ..b },
        Flag::NoFrameCrc | Flag::NoCrc => BenchConfig { skip_checksums: true, ..b },
        _ => b,
    }
}

/// What a flag does to the operation mode.
#[verifier::opaque]
pub open spec fn flag_op_mode(o: OpMode, f: Flag) -> OpMode {
    match f {
        Flag::Compress => OpMode::Compress,
        Flag::Decompress => if o != OpMode::Bench { OpMode::Decompress } else { o },
        Flag::Test => OpMode::Test,
        Flag::List => OpMode::List,
        Flag::Bench => OpMode::Bench,
        _ => o,
    }
}

/// The help text a flag asks for.
#[verifier::opaque]
pub open spec fn flag_help(h: HelpRequest, f: Flag) -> HelpRequest {
    match f {
        Flag::Version => HelpRequest::Version,
        Flag::Usage => HelpRequest::Usage,
        Flag::LongHelp => HelpRequest::LongHelp,
        _ => h,
    }
}

/// The flags that print a text and stop.
pub open spec fn flag_stops(f: Flag) -> bool {
    f == Flag::Version || f == Flag::Usage || f == Flag::LongHelp
}

/// The flags after which every name is an input.
pub open spec fn flag_multiple(f: Flag) -> bool {
    f == Flag::List || f == Flag::Bench || f == Flag::Recursive || f == Flag::Multiple
}

/// The flags that send the output to standard output.
pub open spec fn flag_stdout(f: Flag) -> bool {
    f == Flag::PassThrough || f == Flag::Stdout
}

/// What a flag does to the verbosity.
#[verifier::opaque]
pub open spec fn flag_display_level(v: u32, f: Flag) -> u32 {
    match f {
        Flag::Verbose => more_verbose_spec(v),
        Flag::Quiet => less_verbose_spec(v),
        _ => v,
    }
}

/// The state after a flag.
pub open spec fn apply_flag(m: ArgsModel, f: Flag) -> ArgsModel {
    ArgsModel {
        prefs: flag_prefs(m.prefs, f),
        op_mode: flag_op_mode(m.op_mode, f),
        c_level: if f == Flag::Best { LZ4HC_CLEVEL_MAX } else { m.c_level },
        legacy_format: m.legacy_format || f == Flag::Legacy,
        force_stdout: m.force_stdout || flag_stdout(f),
        force_overwrite: m.force_overwrite || f == Flag::ForceAll,
        main_pause: m.main_pause || f == Flag::Pause,
        multiple_inputs: m.multiple_inputs || flag_multiple(f),
        output: if flag_stdout(f) { Some(STDOUT_MARK@) } else { m.output },
        recursive: m.recursive || f == Flag::Recursive,
        block_size: if f == Flag::Legacy { LEGACY_BLOCK_SIZE } else { m.block_size },
        bench: flag_bench(m.bench, f),
        exit_early: m.exit_early || flag_stops(f),
        display_level: flag_display_level(m.display_level, f),
        help: flag_help(m.help, f),
        ..m
    }
}

/// The level `--fast` followed by `rest` sets, or the error message.
pub open spec fn fast_spec(rest: Seq<char>) -> Result<i32, Seq<char>> {
    if rest.len() > 0 && rest[0] == '=' {
        let t = rest.drop_first();
        let v = leading_u32(t);
        if digit_run(t) == 0 {
            Err("bad usage: --fast: expected a numeric level"@)
        } else if suffix_end(t, digit_run(t) as int) < t.len() {
            Err("bad usage: --fast: invalid argument"@)
        } else if v == 0 {
            Err("bad usage: --fast: level must be > 0"@)
        } else {
            Ok(if v as i32 == i32::MIN { i32::MIN } else { (-(v as i32)) as i32 })
        }
    } else if rest.len() == 0 {
        Ok(-1i32)
    } else {
        Err("bad usage: --fast: unexpected characters after option"@)
    }
}

/// The value of a long option: after `=` in the word, or the next word
/// (word `i` is the option). Gives the value, whether text follows it in
/// the word, and the index of the last word taken; or the error message.
pub open spec fn next_uint_spec(rest: Seq<char>, argv: Seq<Seq<char>>, i: int, exe: Seq<char>) -> Result<
    (u32, bool, int),
    Seq<char>,
> {
    if rest.len() > 0 && rest[0] == '=' {
        let t = rest.drop_first();
        if digit_run(t) > 0 {
            Ok((leading_u32(t), suffix_end(t, digit_run(t) as int) < t.len(), i))
        } else {
            Err("bad usage: "@ + exe + " expected numeric argument"@)
        }
    } else if rest.len() == 0 {
        if i + 1 >= argv.len() {
            Err("bad usage: "@ + exe + ": missing command argument"@)
        } else {
            let t = argv[i + 1];
            if t.len() > 0 && t[0] == '-' {
                Err("bad usage: "@ + exe + ": option argument cannot be another option"@)
            } else if digit_run(t) > 0 {
                Ok((leading_u32(t), suffix_end(t, digit_run(t) as int) < t.len(), i + 1))
            } else {
                Err("bad usage: "@ + exe + ": expected numeric argument"@)
            }
        }
    } else {
        Err("bad usage: "@ + exe + ": unexpected text after option"@)
    }
}

/// A long option (word `i`, `w`, that starts with `--` and is not `--`):
/// the state after it and the index of the last word taken, or the error
/// message.
pub open spec fn long_spec(m: ArgsModel, w: Seq<char>, argv: Seq<Seq<char>>, i: int, exe: Seq<char>) -> Result<
    (ArgsModel, int),
    Seq<char>,
> {
    match long_flag(w) {
        Some(f) => Ok((apply_flag(m, f), i)),
        None => if "--threads"@.is_prefix_of(w) {
            match next_uint_spec(w.subrange("--threads"@.len() as int, w.len() as int), argv, i, exe) {
                Err(e) => Err(e),
                Ok((v, more, j)) => if more {
                    Err("bad usage: --threads: only numeric values are allowed"@)
                } else {
                    Ok((ArgsModel { nb_workers: v as usize, ..m }, j))
                },
            }
        } else if "--fast"@.is_prefix_of(w) {
            match fast_spec(w.subrange("--fast"@.len() as int, w.len() as int)) {
                Err(e) => Err(e),
                Ok(l) => Ok((ArgsModel { c_level: l, ..m }, i)),
            }
        } else {
            Err("bad usage: unknown option: "@ + w)
        },
    }
}

/// The number at `pos` in `w`, with its unit: its value and the index just
/// past it.
pub open spec fn number_spec(w: Seq<char>, pos: int) -> (u32, int) {
    let t = w.subrange(pos, w.len() as int);
    (leading_u32(t), pos + suffix_end(t, digit_run(t) as int))
}

/// What the `-B` property at index `j` does: nothing is left, it is refused,
/// or it gives a state and the index of the next property.
pub enum BlockStep {
    Stop,
    Fail(Seq<char>),
    Next(ArgsModel, int),
}

/// The `-B` property at index `j` of `w`.
#[verifier::opaque]
pub open spec fn block_step(m: ArgsModel, w: Seq<char>, j: int) -> BlockStep {
    if j < 0 || j >= w.len() {
        BlockStep::Stop
    } else {
        let c = w[j];
        if c == 'D' {
            BlockStep::Next(ArgsModel { prefs: Prefs { block_independence: false, ..m.prefs }, ..m }, j + 1)
        } else if c == 'I' {
            BlockStep::Next(ArgsModel { prefs: Prefs { block_independence: true, ..m.prefs }, ..m }, j + 1)
        } else if c == 'X' {
            BlockStep::Next(ArgsModel { prefs: Prefs { block_checksum: true, ..m.prefs }, ..m }, j + 1)
        } else if is_digit(c) {
            let (v, j2) = number_spec(w, j);
            if v < 4 {
                BlockStep::Fail("bad usage: block size ID must be >= 4"@)
            } else if v <= 7 {
                let bs = block_size_of_id(v);
                BlockStep::Next(
                    ArgsModel {
                        prefs: Prefs { block_size_id: v, block_size: bs, ..m.prefs },
                        block_size: bs,
                        bench: BenchConfig { block_size: bs, ..m.bench },
                        notices: m.notices.push(bs),
                        ..m
                    },
                    j2,
                )
            } else if v < 32 {
                BlockStep::Fail("bad usage: block size must be >= 32 bytes when > 7"@)
            } else {
                let bs = clamp_block_size(v as usize);
                BlockStep::Next(
                    ArgsModel {
                        prefs: Prefs { block_size: bs, block_size_id: block_size_id_for(bs), ..m.prefs },
                        block_size: bs,
                        bench: BenchConfig { block_size: bs, ..m.bench },
                        notices: m.notices.push(bs),
                        ..m
                    },
                    j2,
                )
            }
        } else {
            BlockStep::Stop
        }
    }
}

/// A property that gives a state moves past itself.
pub proof fn lemma_block_step_advances(m: ArgsModel, w: Seq<char>, j: int)
    ensures
        block_step(m, w, j) matches BlockStep::Next(_, j2) ==> j < j2 <= w.len(),
{
    reveal(block_step);
    if 0 <= j < w.len() && is_digit(w[j]) {
        let t = w.subrange(j, w.len() as int);
        assert(t[0] == w[j]);
        lemma_digit_run_bounds(t);
    }
}

/// The `-B` properties from index `j` of `w`: the state after them and the
/// index where they stop, or the error message.
pub open spec fn block_spec(m: ArgsModel, w: Seq<char>, j: int) -> Result<(ArgsModel, int), Seq<char>>
    decreases w.len() - j,
{
    proof {
        lemma_block_step_advances(m, w, j);
    }
    match block_step(m, w, j) {
        BlockStep::Stop => Ok((m, j)),
        BlockStep::Fail(e) => Err(e),
        BlockStep::Next(m2, j2) => block_spec(m2, w, j2),
    }
}

/// Whether `w` holds `a` and then `b` at `k`.
pub open spec fn pair_at_spec(w: Seq<char>, k: int, a: char, b: char) -> bool {
    0 <= k && k + 1 < w.len() && w[k] == a && w[k + 1] == b
}

/// One short option at index `pos` of `w` (word `i`): the state after it,
/// the index where the next option starts and the index of the last word
/// taken; or the error message.
#[verifier::opaque]
pub open spec fn short_step_spec(m: ArgsModel, w: Seq<char>, pos: int, argv: Seq<Seq<char>>, i: int) -> Result<
    (ArgsModel, int, int),
    Seq<char>,
> {
    let n = w.len() as int;
    let next = pos + 1;
    if m.legacy && pair_at_spec(w, pos, 'c', '0') {
        Ok((ArgsModel { c_level: 0, ..m }, pos + 2, i))
    } else if m.legacy && pair_at_spec(w, pos, 'c', '1') {
        Ok((ArgsModel { c_level: 9, ..m }, pos + 2, i))
    } else if m.legacy && (pair_at_spec(w, pos, 'c', '2') || pair_at_spec(w, pos, 'h', 'c')) {
        Ok((ArgsModel { c_level: 12, ..m }, pos + 2, i))
    } else if m.legacy && w[pos] == 'y' {
        Ok((apply_flag(m, Flag::Overwrite), pos + 1, i))
    } else if is_digit(w[pos]) {
        let (v, p2) = number_spec(w, pos);
        Ok((ArgsModel { c_level: v as i32, ..m }, p2, i))
    } else if w[pos] == 'e' {
        if next < n && is_digit(w[next]) {
            let (v, p2) = number_spec(w, next);
            Ok((ArgsModel { c_level_last: v as i32, ..m }, p2, i))
        } else {
            Err("bad usage: -e requires a numeric argument"@)
        }
    } else if w[pos] == 'T' {
        if next < n && is_digit(w[next]) {
            let (v, p2) = number_spec(w, next);
            Ok((ArgsModel { nb_workers: v as usize, ..m }, p2, i))
        } else if next >= n {
            if i + 1 >= argv.len() {
                Err("bad usage: -T requires a numeric argument"@)
            } else if digit_run(argv[i + 1]) > 0 {
                Ok((ArgsModel { nb_workers: leading_u32(argv[i + 1]) as usize, ..m }, n, i + 1))
            } else {
                Err("bad usage: -T: expected numeric value"@)
            }
        } else {
            Err("bad usage: -T requires a numeric argument"@)
        }
    } else if w[pos] == 'D' {
        if next >= n {
            if i + 1 >= argv.len() {
                Err("bad usage: -D requires a path argument"@)
            } else {
                Ok((ArgsModel { dict: Some(argv[i + 1]), ..m }, n, i + 1))
            }
        } else {
            Ok((ArgsModel { dict: Some(w.subrange(next, n)), ..m }, n, i))
        }
    } else if w[pos] == 'B' {
        match block_spec(m, w, next) {
            Err(e) => Err(e),
            Ok((m2, j)) => Ok((m2, j, i)),
        }
    } else if w[pos] == 'i' {
        if next < n && is_digit(w[next]) {
            let (v, p2) = number_spec(w, next);
            Ok((ArgsModel { bench: BenchConfig { display_level: m.display_level, nb_seconds: v, ..m.bench }, ..m }, p2, i))
        } else {
            Err("bad usage: -i requires a numeric argument"@)
        }
    } else {
        match short_flag(w[pos]) {
            Some(f) => Ok((apply_flag(m, f), pos + 1, i)),
            None => Err("bad usage: unrecognised option: -"@ + w.subrange(pos, pos + 1)),
        }
    }
}

/// The short options of `w` (word `i`) from index `pos` on: the state after
/// them and the index of the last word taken, or the error message.
pub open spec fn short_spec(m: ArgsModel, w: Seq<char>, pos: int, argv: Seq<Seq<char>>, i: int) -> Result<
    (ArgsModel, int),
    Seq<char>,
>
    decreases w.len() - pos,
{
    if pos < 1 || pos >= w.len() {
        Ok((m, i))
    } else {
        match short_step_spec(m, w, pos, argv, i) {
            Err(e) => Err(e),
            Ok((m2, p2, i2)) => if m2.exit_early || p2 <= pos || p2 >= w.len() {
                Ok((m2, i2))
            } else {
                short_spec(m2, w, p2, argv, i2)
            },
        }
    }
}

/// A word that is a name: the first is the input, the second the output
/// (`null` standing for the null device), then they are inputs when every
/// name is one, ignored after `-f`, an error otherwise.
pub open spec fn name_spec(m: ArgsModel, w: Seq<char>) -> Result<ArgsModel, Seq<char>> {
    if m.multiple_inputs {
        Ok(ArgsModel { inputs: m.inputs.push(w), ..m })
    } else if m.input is None {
        Ok(ArgsModel { input: Some(w), ..m })
    } else if m.output is None {
        Ok(ArgsModel { output: Some(if w == NULL_OUTPUT@ { NUL_MARK@ } else { w }), ..m })
    } else if m.force_overwrite {
        Ok(ArgsModel { ignored: m.ignored.push(w), ..m })
    } else {
        Err("Error: "@ + w + " won't be used ! Do you want multiple input files (-m) ?"@)
    }
}

/// Word `i`: the state after it and the index of the last word taken, or
/// the error message.
pub open spec fn word_spec(m: ArgsModel, argv: Seq<Seq<char>>, i: int, exe: Seq<char>) -> Result<
    (ArgsModel, int),
    Seq<char>,
> {
    let w = argv[i];
    if w.len() == 0 {
        Ok((m, i))
    } else if m.all_files || w[0] != '-' {
        match name_spec(m, w) {
            Err(e) => Err(e),
            Ok(m2) => Ok((m2, i)),
        }
    } else if w.len() == 1 {
        if m.input is None {
            Ok((ArgsModel { input: Some(STDIN_MARK@), ..m }, i))
        } else {
            Ok((ArgsModel { output: Some(STDOUT_MARK@), ..m }, i))
        }
    } else if w[1] == '-' {
        if w.len() == 2 {
            Ok((ArgsModel { all_files: true, ..m }, i))
        } else {
            long_spec(m, w, argv, i, exe)
        }
    } else {
        short_spec(m, w, 1, argv, i)
    }
}

/// The words from index `i` on: the final state, or the error message.
/// Parsing stops after a word that asks for a help text.
pub open spec fn parse_spec(m: ArgsModel, argv: Seq<Seq<char>>, i: int, exe: Seq<char>) -> Result<ArgsModel, Seq<char>>
    decreases argv.len() - i,
{
    if i < 0 || i >= argv.len() {
        Ok(m)
    } else {
        match word_spec(m, argv, i, exe) {
            Err(e) => Err(e),
            Ok((m2, j)) => if m2.exit_early {
                Ok(m2)
            } else if j < i || j >= argv.len() {
                Ok(m2)
            } else {
                parse_spec(m2, argv, j + 1, exe)
            },
        }
    }
}

/// A step of the short options that does not stop them leaves the rest to
/// the options after it.
pub proof fn lemma_short_next(
    m: ArgsModel,
    w: Seq<char>,
    pos: int,
    argv: Seq<Seq<char>>,
    i: int,
    m2: ArgsModel,
    p2: int,
    i2: int,
)
    requires
        1 <= pos < p2,
        pos < w.len(),
        short_step_spec(m, w, pos, argv, i) == Ok::<(ArgsModel, int, int), Seq<char>>((m2, p2, i2)),
        !m2.exit_early,
    ensures
        short_spec(m, w, pos, argv, i) == short_spec(m2, w, p2, argv, i2),
{
}

/// A word that does not stop the parse leaves the rest to the words after
/// it.
pub proof fn lemma_parse_next(m: ArgsModel, argv: Seq<Seq<char>>, i: int, exe: Seq<char>, m2: ArgsModel, j: int)
    requires
        0 <= i <= j < argv.len(),
        word_spec(m, argv, i, exe) == Ok::<(ArgsModel, int), Seq<char>>((m2, j)),
        !m2.exit_early,
    ensures
        parse_spec(m, argv, i, exe) == parse_spec(m2, argv, j + 1, exe),
{
}

/// Whether one of the legacy short options starts at `pos`.
pub open spec fn legacy_short(m: ArgsModel, w: Seq<char>, pos: int) -> bool {
    m.legacy && (pair_at_spec(w, pos, 'c', '0') || pair_at_spec(w, pos, 'c', '1') || pair_at_spec(w, pos, 'c', '2')
        || pair_at_spec(w, pos, 'h', 'c') || w[pos] == 'y')
}

/// The `-B` properties go on after a property that gives a state, and
/// stop or fail with one that does not.
pub proof fn lemma_block_next(m: ArgsModel, w: Seq<char>, j: int)
    ensures
        block_step(m, w, j) matches BlockStep::Next(m2, j2) ==> block_spec(m, w, j) == block_spec(m2, w, j2),
        block_step(m, w, j) is Stop ==> block_spec(m, w, j) == Ok::<(ArgsModel, int), Seq<char>>((m, j)),
        block_step(m, w, j) matches BlockStep::Fail(e) ==> block_spec(m, w, j) == Err::<(ArgsModel, int), Seq<char>>(e),
{
}

/// After the last property nothing is left.
pub proof fn lemma_block_end(m: ArgsModel, w: Seq<char>, j: int)
    requires
        j >= w.len(),
    ensures
        block_spec(m, w, j) == Ok::<(ArgsModel, int), Seq<char>>((m, j)),
{
    reveal(block_step);
}

/// One `-B` property that is not a number.
pub proof fn lemma_block_letter(m: ArgsModel, w: Seq<char>, j: int)
    requires
        0 <= j < w.len(),
    ensures
        w[j] == 'D' ==> (block_step(m, w, j) matches BlockStep::Next(m2, j2) && j2 == j + 1 && m2 == (
            ArgsModel { prefs: Prefs { block_independence: false, ..m.prefs }, ..m })),
        w[j] == 'I' ==> (block_step(m, w, j) matches BlockStep::Next(m2, j2) && j2 == j + 1 && m2 == (
            ArgsModel { prefs: Prefs { block_independence: true, ..m.prefs }, ..m })),
        w[j] == 'X' ==> (block_step(m, w, j) matches BlockStep::Next(m2, j2) && j2 == j + 1 && m2 == (
            ArgsModel { prefs: Prefs { block_checksum: true, ..m.prefs }, ..m })),
        !(w[j] == 'D' || w[j] == 'I' || w[j] == 'X' || is_digit(w[j])) ==> block_step(m, w, j) is Stop,
{
    reveal(block_step);
}

/// One `-B` property that is a number.
pub proof fn lemma_block_digit(m: ArgsModel, w: Seq<char>, j: int)
    requires
        0 <= j < w.len(),
        is_digit(w[j]),
    ensures
        number_spec(w, j).0 < 4 ==> block_step(m, w, j) == BlockStep::Fail(
            "bad usage: block size ID must be >= 4"@,
        ),
        4 <= number_spec(w, j).0 <= 7 ==> {
            let v = number_spec(w, j).0;
            let bs = block_size_of_id(v);
            block_step(m, w, j) matches BlockStep::Next(m2, j2) && j2 == number_spec(w, j).1 && m2 == (
                ArgsModel {
                    prefs: Prefs { block_size_id: v, block_size: bs, ..m.prefs },
                    block_size: bs,
                    bench: BenchConfig { block_size: bs, ..m.bench },
                    notices: m.notices.push(bs),
                    ..m
                })
        },
        7 < number_spec(w, j).0 < 32 ==> block_step(m, w, j) == BlockStep::Fail(
            "bad usage: block size must be >= 32 bytes when > 7"@,
        ),
        32 <= number_spec(w, j).0 ==> {
            let bs = clamp_block_size(number_spec(w, j).0 as usize);
            block_step(m, w, j) matches BlockStep::Next(m2, j2) && j2 == number_spec(w, j).1 && m2 == (
                ArgsModel {
                    prefs: Prefs { block_size: bs, block_size_id: block_size_id_for(bs), ..m.prefs },
                    block_size: bs,
                    bench: BenchConfig { block_size: bs, ..m.bench },
                    notices: m.notices.push(bs),
                    ..m
                })
        },
{
    reveal(block_step);
}

/// The level that a legacy option at `pos` sets (`-c0`, `-c1`, `-c2`, `-hc`).
pub open spec fn legacy_level(w: Seq<char>, pos: int) -> i32 {
    if pair_at_spec(w, pos, 'c', '0') {
        0
    } else if pair_at_spec(w, pos, 'c', '1') {
        9
    } else {
        12
    }
}

/// A legacy short option.
pub proof fn lemma_short_legacy(m: ArgsModel, w: Seq<char>, pos: int, argv: Seq<Seq<char>>, i: int)
    requires
        1 <= pos < w.len(),
        legacy_short(m, w, pos),
    ensures
        short_step_spec(m, w, pos, argv, i) == if w[pos] == 'y' {
            Ok::<(ArgsModel, int, int), Seq<char>>((apply_flag(m, Flag::Overwrite), pos + 1, i))
        } else {
            Ok((ArgsModel { c_level: legacy_level(w, pos), ..m }, pos + 2, i))
        },
{
    reveal(short_step_spec);
}

/// A level given as a number (`-9`).
pub proof fn lemma_short_digit(m: ArgsModel, w: Seq<char>, pos: int, argv: Seq<Seq<char>>, i: int)
    requires
        1 <= pos < w.len(),
        !legacy_short(m, w, pos),
        is_digit(w[pos]),
    ensures
        short_step_spec(m, w, pos, argv, i) == Ok::<(ArgsModel, int, int), Seq<char>>(
            (ArgsModel { c_level: number_spec(w, pos).0 as i32, ..m }, number_spec(w, pos).1, i),
        ),
{
    reveal(short_step_spec);
}

/// `-e` and the last level of a benchmark range.
pub proof fn lemma_short_e(m: ArgsModel, w: Seq<char>, pos: int, argv: Seq<Seq<char>>, i: int)
    requires
        1 <= pos < w.len(),
        !legacy_short(m, w, pos),
        w[pos] == 'e',
    ensures
        short_step_spec(m, w, pos, argv, i) == if pos + 1 < w.len() && is_digit(w[pos + 1]) {
            Ok::<(ArgsModel, int, int), Seq<char>>(
                (ArgsModel { c_level_last: number_spec(w, pos + 1).0 as i32, ..m }, number_spec(w, pos + 1).1, i),
            )
        } else {
            Err("bad usage: -e requires a numeric argument"@)
        },
{
    reveal(short_step_spec);
}

/// `-T` and the number of workers.
pub proof fn lemma_short_t(m: ArgsModel, w: Seq<char>, pos: int, argv: Seq<Seq<char>>, i: int)
    requires
        1 <= pos < w.len(),
        !legacy_short(m, w, pos),
        w[pos] == 'T',
    ensures
        short_step_spec(m, w, pos, argv, i) == if pos + 1 < w.len() {
            if is_digit(w[pos + 1]) {
                Ok::<(ArgsModel, int, int), Seq<char>>(
                    (ArgsModel { nb_workers: number_spec(w, pos + 1).0 as usize, ..m }, number_spec(w, pos + 1).1, i),
                )
            } else {
                Err("bad usage: -T requires a numeric argument"@)
            }
        } else if i + 1 >= argv.len() {
            Err("bad usage: -T requires a numeric argument"@)
        } else if digit_run(argv[i + 1]) > 0 {
            Ok((ArgsModel { nb_workers: leading_u32(argv[i + 1]) as usize, ..m }, w.len() as int, i + 1))
        } else {
            Err("bad usage: -T: expected numeric value"@)
        },
{
    reveal(short_step_spec);
}

/// `-D` and the dictionary.
pub proof fn lemma_short_d(m: ArgsModel, w: Seq<char>, pos: int, argv: Seq<Seq<char>>, i: int)
    requires
        1 <= pos < w.len(),
        !legacy_short(m, w, pos),
        w[pos] == 'D',
    ensures
        short_step_spec(m, w, pos, argv, i) == if pos + 1 < w.len() {
            Ok::<(ArgsModel, int, int), Seq<char>>(
                (ArgsModel { dict: Some(w.subrange(pos + 1, w.len() as int)), ..m }, w.len() as int, i),
            )
        } else if i + 1 >= argv.len() {
            Err("bad usage: -D requires a path argument"@)
        } else {
            Ok((ArgsModel { dict: Some(argv[i + 1]), ..m }, w.len() as int, i + 1))
        },
{
    reveal(short_step_spec);
}

/// `-B` and the block properties.
pub proof fn lemma_short_b(m: ArgsModel, w: Seq<char>, pos: int, argv: Seq<Seq<char>>, i: int)
    requires
        1 <= pos < w.len(),
        !legacy_short(m, w, pos),
        w[pos] == 'B',
    ensures
        short_step_spec(m, w, pos, argv, i) == match block_spec(m, w, pos + 1) {
            Err(e) => Err(e),
            Ok((m2, j)) => Ok::<(ArgsModel, int, int), Seq<char>>((m2, j, i)),
        },
{
    reveal(short_step_spec);
}

/// `-i` and the benchmark duration.
pub proof fn lemma_short_i(m: ArgsModel, w: Seq<char>, pos: int, argv: Seq<Seq<char>>, i: int)
    requires
        1 <= pos < w.len(),
        !legacy_short(m, w, pos),
        w[pos] == 'i',
    ensures
        short_step_spec(m, w, pos, argv, i) == if pos + 1 < w.len() && is_digit(w[pos + 1]) {
            Ok::<(ArgsModel, int, int), Seq<char>>(
                (
                    ArgsModel {
                        bench: BenchConfig {
                            display_level: m.display_level,
                            nb_seconds: number_spec(w, pos + 1).0,
                            ..m.bench
                        },
                        ..m
                    },
                    number_spec(w, pos + 1).1,
                    i,
                ),
            )
        } else {
            Err("bad usage: -i requires a numeric argument"@)
        },
{
    reveal(short_step_spec);
}

/// A short option that takes no value, or an unknown letter.
pub proof fn lemma_short_flag(m: ArgsModel, w: Seq<char>, pos: int, argv: Seq<Seq<char>>, i: int)
    requires
        1 <= pos < w.len(),
        !legacy_short(m, w, pos),
        !is_digit(w[pos]),
        w[pos] != 'e' && w[pos] != 'T' && w[pos] != 'D' && w[pos] != 'B' && w[pos] != 'i',
    ensures
        short_step_spec(m, w, pos, argv, i) == match short_flag(w[pos]) {
            Some(f) => Ok::<(ArgsModel, int, int), Seq<char>>((apply_flag(m, f), pos + 1, i)),
            None => Err("bad usage: unrecognised option: -"@ + w.subrange(pos, pos + 1)),
        },
{
    reveal(short_step_spec);
}

/// A word that is refused ends the parse with its error.
pub proof fn lemma_parse_err(m: ArgsModel, argv: Seq<Seq<char>>, i: int, exe: Seq<char>, e: Seq<char>)
    requires
        0 <= i < argv.len(),
        word_spec(m, argv, i, exe) == Err::<(ArgsModel, int), Seq<char>>(e),
    ensures
        parse_spec(m, argv, i, exe) == Err::<ArgsModel, Seq<char>>(e),
{
}

/// A word that asks for a help text ends the parse.
pub proof fn lemma_parse_stop(m: ArgsModel, argv: Seq<Seq<char>>, i: int, exe: Seq<char>, m2: ArgsModel, j: int)
    requires
        0 <= i < argv.len(),
        word_spec(m, argv, i, exe) == Ok::<(ArgsModel, int), Seq<char>>((m2, j)),
        m2.exit_early,
    ensures
        parse_spec(m, argv, i, exe) == Ok::<ArgsModel, Seq<char>>(m2),
{
}

/// The literal texts of the long options, revealed.
proof fn lemma_long_option_texts()
    ensures
        "--rm"@ =~= seq!['-', '-', 'r', 'm'],
        "--no-crc"@ =~= seq!['-', '-', 'n', 'o', '-', 'c', 'r', 'c'],
        long_flag("--force"@) == Some(Flag::Overwrite),
        long_flag("--no-force"@) == Some(Flag::NoOverwrite),
        long_flag("--frame-crc"@) == Some(Flag::FrameCrc),
        long_flag("--no-frame-crc"@) == Some(Flag::NoFrameCrc),
        long_flag("--no-crc"@) == Some(Flag::NoCrc),
        long_flag("--content-size"@) == Some(Flag::ContentSize),
        long_flag("--no-content-size"@) == Some(Flag::NoContentSize),
        long_flag("--sparse"@) == Some(Flag::Sparse),
        long_flag("--no-sparse"@) == Some(Flag::NoSparse),
        long_flag("--favor-decSpeed"@) == Some(Flag::FavorDecSpeed),
        long_flag("--keep"@) == Some(Flag::Keep),
        long_flag("--rm"@) == Some(Flag::Remove),
        "--rm"@[0] == '-' && "--rm"@[1] == '-',
{
    reveal_strlit("--compress");
    reveal_strlit("--decompress");
    reveal_strlit("--uncompress");
    reveal_strlit("--multiple");
    reveal_strlit("--test");
    reveal_strlit("--force");
    reveal_strlit("--no-force");
    reveal_strlit("--stdout");
    reveal_strlit("--to-stdout");
    reveal_strlit("--frame-crc");
    reveal_strlit("--no-frame-crc");
    reveal_strlit("--no-crc");
    reveal_strlit("--content-size");
    reveal_strlit("--no-content-size");
    reveal_strlit("--list");
    reveal_strlit("--sparse");
    reveal_strlit("--no-sparse");
    reveal_strlit("--favor-decSpeed");
    reveal_strlit("--verbose");
    reveal_strlit("--quiet");
    reveal_strlit("--version");
    reveal_strlit("--help");
    reveal_strlit("--keep");
    reveal_strlit("--rm");
    reveal_strlit("--best");
    assert("--rm"@.len() != "--compress"@.len());
    assert("--rm"@.len() != "--decompress"@.len());
    assert("--rm"@.len() != "--uncompress"@.len());
    assert("--rm"@.len() != "--multiple"@.len());
    assert("--rm"@.len() != "--test"@.len());
    assert("--rm"@.len() != "--force"@.len());
    assert("--rm"@.len() != "--no-force"@.len());
    assert("--rm"@.len() != "--stdout"@.len());
    assert("--rm"@.len() != "--to-stdout"@.len());
    assert("--rm"@.len() != "--frame-crc"@.len());
    assert("--rm"@.len() != "--no-frame-crc"@.len());
    assert("--rm"@.len() != "--no-crc"@.len());
    assert("--rm"@.len() != "--content-size"@.len());
    assert("--rm"@.len() != "--no-content-size"@.len());
    assert("--rm"@.len() != "--list"@.len());
    assert("--rm"@.len() != "--sparse"@.len());
    assert("--rm"@.len() != "--no-sparse"@.len());
    assert("--rm"@.len() != "--favor-decSpeed"@.len());
    assert("--rm"@.len() != "--verbose"@.len());
    assert("--rm"@.len() != "--quiet"@.len());
    assert("--rm"@.len() != "--version"@.len());
    assert("--rm"@.len() != "--help"@.len());
    assert("--rm"@.len() != "--keep"@.len());
    assert("--no-crc"@.len() != "--compress"@.len());
    assert("--no-crc"@.len() != "--decompress"@.len());
    assert("--no-crc"@.len() != "--uncompress"@.len());
    assert("--no-crc"@.len() != "--multiple"@.len());
    assert("--no-crc"@.len() != "--test"@.len());
    assert("--no-crc"@.len() != "--force"@.len());
    assert("--no-crc"@.len() != "--no-force"@.len());
    assert("--no-crc"@[2] != "--stdout"@[2]);
    assert("--no-crc"@.len() != "--to-stdout"@.len());
    assert("--no-crc"@.len() != "--frame-crc"@.len());
    assert("--no-crc"@.len() != "--no-frame-crc"@.len());
    assert("--force"@.len() != "--compress"@.len());
    assert("--force"@.len() != "--decompress"@.len());
    assert("--force"@.len() != "--uncompress"@.len());
    assert("--force"@.len() != "--multiple"@.len());
    assert("--force"@.len() != "--test"@.len());
    assert("--no-force"@[2] != "--compress"@[2]);
    assert("--no-force"@.len() != "--decompress"@.len());
    assert("--no-force"@.len() != "--uncompress"@.len());
    assert("--no-force"@[2] != "--multiple"@[2]);
    assert("--no-force"@.len() != "--test"@.len());
    assert("--no-force"@.len() != "--force"@.len());
    assert("--frame-crc"@.len() != "--compress"@.len());
    assert("--frame-crc"@.len() != "--decompress"@.len());
    assert("--frame-crc"@.len() != "--uncompress"@.len());
    assert("--frame-crc"@.len() != "--multiple"@.len());
    assert("--frame-crc"@.len() != "--test"@.len());
    assert("--frame-crc"@.len() != "--force"@.len());
    assert("--frame-crc"@.len() != "--no-force"@.len());
    assert("--frame-crc"@.len() != "--stdout"@.len());
    assert("--frame-crc"@[2] != "--to-stdout"@[2]);
    assert("--no-frame-crc"@.len() != "--compress"@.len());
    assert("--no-frame-crc"@.len() != "--decompress"@.len());
    assert("--no-frame-crc"@.len() != "--uncompress"@.len());
    assert("--no-frame-crc"@.len() != "--multiple"@.len());
    assert("--no-frame-crc"@.len() != "--test"@.len());
    assert("--no-frame-crc"@.len() != "--force"@.len());
    assert("--no-frame-crc"@.len() != "--no-force"@.len());
    assert("--no-frame-crc"@.len() != "--stdout"@.len());
    assert("--no-frame-crc"@.len() != "--to-stdout"@.len());
    assert("--no-frame-crc"@.len() != "--frame-crc"@.len());
    assert("--content-size"@.len() != "--compress"@.len());
    assert("--content-size"@.len() != "--decompress"@.len());
    assert("--content-size"@.len() != "--uncompress"@.len());
    assert("--content-size"@.len() != "--multiple"@.len());
    assert("--content-size"@.len() != "--test"@.len());
    assert("--content-size"@.len() != "--force"@.len());
    assert("--content-size"@.len() != "--no-force"@.len());
    assert("--content-size"@.len() != "--stdout"@.len());
    assert("--content-size"@.len() != "--to-stdout"@.len());
    assert("--content-size"@.len() != "--frame-crc"@.len());
    assert("--content-size"@[2] != "--no-frame-crc"@[2]);
    assert("--content-size"@.len() != "--no-crc"@.len());
    assert("--no-content-size"@.len() != "--compress"@.len());
    assert("--no-content-size"@.len() != "--decompress"@.len());
    assert("--no-content-size"@.len() != "--uncompress"@.len());
    assert("--no-content-size"@.len() != "--multiple"@.len());
    assert("--no-content-size"@.len() != "--test"@.len());
    assert("--no-content-size"@.len() != "--force"@.len());
    assert("--no-content-size"@.len() != "--no-force"@.len());
    assert("--no-content-size"@.len() != "--stdout"@.len());
    assert("--no-content-size"@.len() != "--to-stdout"@.len());
    assert("--no-content-size"@.len() != "--frame-crc"@.len());
    assert("--no-content-size"@.len() != "--no-frame-crc"@.len());
    assert("--no-content-size"@.len() != "--no-crc"@.len());
    assert("--no-content-size"@.len() != "--content-size"@.len());
    assert("--sparse"@.len() != "--compress"@.len());
    assert("--sparse"@.len() != "--decompress"@.len());
    assert("--sparse"@.len() != "--uncompress"@.len());
    assert("--sparse"@.len() != "--multiple"@.len());
    assert("--sparse"@.len() != "--test"@.len());
    assert("--sparse"@.len() != "--force"@.len());
    assert("--sparse"@.len() != "--no-force"@.len());
    assert("--sparse"@[3] != "--stdout"@[3]);
    assert("--sparse"@.len() != "--to-stdout"@.len());
    assert("--sparse"@.len() != "--frame-crc"@.len());
    assert("--sparse"@.len() != "--no-frame-crc"@.len());
    assert("--sparse"@[2] != "--no-crc"@[2]);
    assert("--sparse"@.len() != "--content-size"@.len());
    assert("--sparse"@.len() != "--no-content-size"@.len());
    assert("--sparse"@.len() != "--list"@.len());
    assert("--no-sparse"@.len() != "--compress"@.len());
    assert("--no-sparse"@.len() != "--decompress"@.len());
    assert("--no-sparse"@.len() != "--uncompress"@.len());
    assert("--no-sparse"@.len() != "--multiple"@.len());
    assert("--no-sparse"@.len() != "--test"@.len());
    assert("--no-sparse"@.len() != "--force"@.len());
    assert("--no-sparse"@.len() != "--no-force"@.len());
    assert("--no-sparse"@.len() != "--stdout"@.len());
    assert("--no-sparse"@[2] != "--to-stdout"@[2]);
    assert("--no-sparse"@[2] != "--frame-crc"@[2]);
    assert("--no-sparse"@.len() != "--no-frame-crc"@.len());
    assert("--no-sparse"@.len() != "--no-crc"@.len());
    assert("--no-sparse"@.len() != "--content-size"@.len());
    assert("--no-sparse"@.len() != "--no-content-size"@.len());
    assert("--no-sparse"@.len() != "--list"@.len());
    assert("--no-sparse"@.len() != "--sparse"@.len());
    assert("--favor-decSpeed"@.len() != "--compress"@.len());
    assert("--favor-decSpeed"@.len() != "--decompress"@.len());
    assert("--favor-decSpeed"@.len() != "--uncompress"@.len());
    assert("--favor-decSpeed"@.len() != "--multiple"@.len());
    assert("--favor-decSpeed"@.len() != "--test"@.len());
    assert("--favor-decSpeed"@.len() != "--force"@.len());
    assert("--favor-decSpeed"@.len() != "--no-force"@.len());
    assert("--favor-decSpeed"@.len() != "--stdout"@.len());
    assert("--favor-decSpeed"@.len() != "--to-stdout"@.len());
    assert("--favor-decSpeed"@.len() != "--frame-crc"@.len());
    assert("--favor-decSpeed"@.len() != "--no-frame-crc"@.len());
    assert("--favor-decSpeed"@.len() != "--no-crc"@.len());
    assert("--favor-decSpeed"@.len() != "--content-size"@.len());
    assert("--favor-decSpeed"@.len() != "--no-content-size"@.len());
    assert("--favor-decSpeed"@.len() != "--list"@.len());
    assert("--favor-decSpeed"@.len() != "--sparse"@.len());
    assert("--favor-decSpeed"@.len() != "--no-sparse"@.len());
    assert("--keep"@.len() != "--compress"@.len());
    assert("--keep"@.len() != "--decompress"@.len());
    assert("--keep"@.len() != "--uncompress"@.len());
    assert("--keep"@.len() != "--multiple"@.len());
    assert("--keep"@[2] != "--test"@[2]);
    assert("--keep"@.len() != "--force"@.len());
    assert("--keep"@.len() != "--no-force"@.len());
    assert("--keep"@.len() != "--stdout"@.len());
    assert("--keep"@.len() != "--to-stdout"@.len());
    assert("--keep"@.len() != "--frame-crc"@.len());
    assert("--keep"@.len() != "--no-frame-crc"@.len());
    assert("--keep"@.len() != "--no-crc"@.len());
    assert("--keep"@.len() != "--content-size"@.len());
    assert("--keep"@.len() != "--no-content-size"@.len());
    assert("--keep"@[2] != "--list"@[2]);
    assert("--keep"@.len() != "--sparse"@.len());
    assert("--keep"@.len() != "--no-sparse"@.len());
    assert("--keep"@.len() != "--favor-decSpeed"@.len());
    assert("--keep"@.len() != "--verbose"@.len());
    assert("--keep"@.len() != "--quiet"@.len());
    assert("--keep"@.len() != "--version"@.len());
    assert("--keep"@[2] != "--help"@[2]);
}

/// `--rm` asks for the source file to be removed once it has been
/// processed: the word sets that preference and leaves every other one as
/// it was.
pub proof fn law_rm_removes_source(m: ArgsModel, argv: Seq<Seq<char>>, i: int, exe: Seq<char>)
    requires
        0 <= i < argv.len(),
        argv[i] == "--rm"@,
        !m.all_files,
    ensures
        word_spec(m, argv, i, exe) matches Ok((m2, j)) && j == i && m2.prefs.remove_src_file
            && m2.prefs == (Prefs { remove_src_file: true, ..m.prefs }) && m2.exit_early == m.exit_early,
{
    lemma_long_option_texts();
    reveal(flag_prefs);
}

/// `--no-crc` asks for frames without checksums: the word turns off both
/// the content checksum and the block checksums and leaves every other
/// preference as it was.
pub proof fn law_no_crc_drops_checksums(m: ArgsModel, argv: Seq<Seq<char>>, i: int, exe: Seq<char>)
    requires
        0 <= i < argv.len(),
        argv[i] == "--no-crc"@,
        !m.all_files,
    ensures
        word_spec(m, argv, i, exe) matches Ok((m2, j)) && j == i && !m2.prefs.stream_checksum
            && !m2.prefs.block_checksum && m2.prefs == (Prefs {
            stream_checksum: false,
            block_checksum: false,
            ..m.prefs
        }) && m2.exit_early == m.exit_early,
{
    lemma_long_option_texts();
    reveal(flag_prefs);
}

/// Names (words that do not start with `-`) leave the preferences alone.
pub proof fn law_names_keep_prefs(m: ArgsModel, argv: Seq<Seq<char>>, i: int, exe: Seq<char>)
    requires
        0 <= i,
        forall|k: int| i <= k < argv.len() ==> argv[k].len() > 0 && argv[k][0] != '-',
    ensures
        parse_spec(m, argv, i, exe) matches Ok(r) ==> r.prefs == m.prefs,
    decreases argv.len() - i,
{
    if i < argv.len() {
        match word_spec(m, argv, i, exe) {
            Ok((m2, j)) => {
                if !m2.exit_early && i <= j < argv.len() {
                    law_names_keep_prefs(m2, argv, j + 1, exe);
                }
            },
            Err(_) => {},
        }
    }
}

/// A command line whose option `--rm` is followed by names only ends with
/// the source file to be removed.
pub proof fn law_rm_then_names(m: ArgsModel, argv: Seq<Seq<char>>, i: int, exe: Seq<char>)
    requires
        0 <= i < argv.len(),
        argv[i] == "--rm"@,
        !m.all_files,
        forall|k: int| i < k < argv.len() ==> argv[k].len() > 0 && argv[k][0] != '-',
    ensures
        parse_spec(m, argv, i, exe) matches Ok(r) ==> r.prefs.remove_src_file,
{
    law_rm_removes_source(m, argv, i, exe);
    let m2 = word_spec(m, argv, i, exe)->Ok_0.0;
    if !m2.exit_early && i + 1 < argv.len() {
        law_names_keep_prefs(m2, argv, i + 1, exe);
    }
}

/// A command line whose option `--no-crc` is followed by names only ends
/// with no checksum to write.
pub proof fn law_no_crc_then_names(m: ArgsModel, argv: Seq<Seq<char>>, i: int, exe: Seq<char>)
    requires
        0 <= i < argv.len(),
        argv[i] == "--no-crc"@,
        !m.all_files,
        forall|k: int| i < k < argv.len() ==> argv[k].len() > 0 && argv[k][0] != '-',
    ensures
        parse_spec(m, argv, i, exe) matches Ok(r) ==> !r.prefs.stream_checksum && !r.prefs.block_checksum,
{
    law_no_crc_drops_checksums(m, argv, i, exe);
    let m2 = word_spec(m, argv, i, exe)->Ok_0.0;
    if !m2.exit_early && i + 1 < argv.len() {
        law_names_keep_prefs(m2, argv, i + 1, exe);
    }
}

/// What each long option that sets a preference does: it sets the
/// preference it names and leaves every other one as it was (the checksum
/// options also tell the benchmark whether to verify checksums), and the
/// parse goes on with the next word.
pub proof fn law_long_option_prefs(m: ArgsModel, argv: Seq<Seq<char>>, i: int, exe: Seq<char>)
    requires
        0 <= i < argv.len(),
        !m.all_files,
    ensures
        argv[i] == "--force"@ ==> (word_spec(m, argv, i, exe) matches Ok((m2, j)) && j == i && m2.prefs == (Prefs { overwrite: true, ..m.prefs })),
        argv[i] == "--no-force"@ ==> (word_spec(m, argv, i, exe) matches Ok((m2, j)) && j == i && m2.prefs == (Prefs { overwrite: false, ..m.prefs })),
        argv[i] == "--frame-crc"@ ==> (word_spec(m, argv, i, exe) matches Ok((m2, j)) && j == i && m2.prefs == (Prefs { stream_checksum: true, ..m.prefs }) && m2.bench == (BenchConfig { skip_checksums: false, ..m.bench })),
        argv[i] == "--no-frame-crc"@ ==> (word_spec(m, argv, i, exe) matches Ok((m2, j)) && j == i && m2.prefs == (Prefs { stream_checksum: false, ..m.prefs }) && m2.bench == (BenchConfig { skip_checksums: true, ..m.bench })),
        argv[i] == "--no-crc"@ ==> (word_spec(m, argv, i, exe) matches Ok((m2, j)) && j == i && m2.prefs == (Prefs { stream_checksum: false, block_checksum: false, ..m.prefs }) && m2.bench == (BenchConfig { skip_checksums: true, ..m.bench })),
        argv[i] == "--content-size"@ ==> (word_spec(m, argv, i, exe) matches Ok((m2, j)) && j == i && m2.prefs == (Prefs { content_size_flag: true, ..m.prefs })),
        argv[i] == "--no-content-size"@ ==> (word_spec(m, argv, i, exe) matches Ok((m2, j)) && j == i && m2.prefs == (Prefs { content_size_flag: false, ..m.prefs })),
        argv[i] == "--sparse"@ ==> (word_spec(m, argv, i, exe) matches Ok((m2, j)) && j == i && m2.prefs == (Prefs { sparse_file_support: 2, ..m.prefs })),
        argv[i] == "--no-sparse"@ ==> (word_spec(m, argv, i, exe) matches Ok((m2, j)) && j == i && m2.prefs == (Prefs { sparse_file_support: 0, ..m.prefs })),
        argv[i] == "--favor-decSpeed"@ ==> (word_spec(m, argv, i, exe) matches Ok((m2, j)) && j == i && m2.prefs == (Prefs { favor_dec_speed: true, ..m.prefs })),
        argv[i] == "--keep"@ ==> (word_spec(m, argv, i, exe) matches Ok((m2, j)) && j == i && m2.prefs == (Prefs { remove_src_file: false, ..m.prefs })),
        argv[i] == "--rm"@ ==> (word_spec(m, argv, i, exe) matches Ok((m2, j)) && j == i && m2.prefs == (Prefs { remove_src_file: true, ..m.prefs })),
{
    lemma_long_option_texts();
    reveal(flag_prefs);
    reveal(flag_bench);
    if argv[i] == "--force"@ {
        reveal_strlit("--force");
    }
    if argv[i] == "--no-force"@ {
        reveal_strlit("--no-force");
    }
    if argv[i] == "--frame-crc"@ {
        reveal_strlit("--frame-crc");
    }
    if argv[i] == "--no-frame-crc"@ {
        reveal_strlit("--no-frame-crc");
    }
    if argv[i] == "--no-crc"@ {
        reveal_strlit("--no-crc");
    }
    if argv[i] == "--content-size"@ {
        reveal_strlit("--content-size");
    }
    if argv[i] == "--no-content-size"@ {
        reveal_strlit("--no-content-size");
    }
    if argv[i] == "--sparse"@ {
        reveal_strlit("--sparse");
    }
    if argv[i] == "--no-sparse"@ {
        reveal_strlit("--no-sparse");
    }
    if argv[i] == "--favor-decSpeed"@ {
        reveal_strlit("--favor-decSpeed");
    }
    if argv[i] == "--keep"@ {
        reveal_strlit("--keep");
    }
    if argv[i] == "--rm"@ {
        reveal_strlit("--rm");
    }
}

} // verus!
