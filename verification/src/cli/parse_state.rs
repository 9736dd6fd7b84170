//! The argument parser's state between words, and each change that one
//! option or name makes to it, stated over the model of `parse_model`.

use vstd::prelude::*;
use vstd::string::StringExecFns;

use crate::bench::BenchConfig;
use crate::cli::args::{parsed_as, ParsedArgs};
use crate::cli::help::LZ4HC_CLEVEL_MAX;
use crate::cli::init::CliInit;
use crate::cli::op_mode::OpMode;
use crate::cli::parse_model::{
    apply_flag, flag_bench, flag_display_level, flag_help, flag_op_mode, flag_prefs, init_model,
    less_verbose_spec, more_verbose_spec, name_view, names_view, ArgsModel, Flag, HelpRequest,
    LEGACY_BLOCK_SIZE,
};
use crate::io::file_io::STDOUT_MARK;
use crate::io::prefs::{block_size_id_for, block_size_of_id, clamp_block_size, BlockMode, Prefs};

verus! {

/// The parser's state between words.
pub(crate) struct ParseState {
    pub(crate) prefs: Prefs,
    pub(crate) op_mode: OpMode,
    pub(crate) c_level: i32,
    pub(crate) c_level_last: i32,
    pub(crate) legacy_format: bool,
    pub(crate) force_stdout: bool,
    pub(crate) force_overwrite: bool,
    pub(crate) main_pause: bool,
    pub(crate) multiple_inputs: bool,
    pub(crate) all_arguments_are_files: bool,
    pub(crate) nb_workers: usize,
    pub(crate) input_filename: Option<String>,
    pub(crate) output_filename: Option<String>,
    pub(crate) dictionary_filename: Option<String>,
    pub(crate) in_file_names: Vec<String>,
    pub(crate) recursive: bool,
    pub(crate) block_size: usize,
    pub(crate) bench_config: BenchConfig,
    pub(crate) exit_early: bool,
    pub(crate) display_level: u32,
    pub(crate) help: HelpRequest,
    pub(crate) ignored_inputs: Vec<String>,
    pub(crate) block_size_notices: Vec<usize>,
    pub(crate) lz4c_legacy: bool,
}

/// The state, names taken by their characters.
pub(crate) closed spec fn state_model(st: ParseState) -> ArgsModel {
    ArgsModel {
        prefs: st.prefs,
        op_mode: st.op_mode,
        c_level: st.c_level,
        c_level_last: st.c_level_last,
        legacy_format: st.legacy_format,
        force_stdout: st.force_stdout,
        force_overwrite: st.force_overwrite,
        main_pause: st.main_pause,
        multiple_inputs: st.multiple_inputs,
        all_files: st.all_arguments_are_files,
        nb_workers: st.nb_workers,
        input: name_view(st.input_filename),
        output: name_view(st.output_filename),
        dict: name_view(st.dictionary_filename),
        inputs: names_view(st.in_file_names@),
        recursive: st.recursive,
        block_size: st.block_size,
        bench: st.bench_config,
        exit_early: st.exit_early,
        display_level: st.display_level,
        help: st.help,
        ignored: names_view(st.ignored_inputs@),
        notices: st.block_size_notices@,
        legacy: st.lz4c_legacy,
    }
}

/// The fields that the parser tests, as the model holds them.
pub(crate) proof fn lemma_state_fields(st: ParseState)
    ensures
        state_model(st).multiple_inputs == st.multiple_inputs,
        state_model(st).input == name_view(st.input_filename),
        state_model(st).output == name_view(st.output_filename),
        state_model(st).force_overwrite == st.force_overwrite,
        state_model(st).all_files == st.all_arguments_are_files,
        state_model(st).exit_early == st.exit_early,
        state_model(st).legacy == st.lz4c_legacy,
        state_model(st).display_level == st.display_level,
{
}

proof fn lemma_names_push(v: Seq<String>, s: String)
    ensures
        names_view(v.push(s)) == names_view(v).push(s@),
{
    assert(names_view(v.push(s)) =~= names_view(v).push(s@));
}

fn text(s: &str) -> (r: String)
    ensures
        r@ == s@,
{
    String::from_str(s)
}

/// The state before the first word.
pub(crate) fn start(init: CliInit) -> (st: ParseState)
    ensures
        state_model(st) == init_model(init),
        !st.exit_early,
{
    let CliInit {
        prefs,
        op_mode,
        lz4c_legacy,
        multiple_inputs,
        c_level,
        nb_workers,
        force_stdout,
        output_filename,
        display_level_override: _,
        display_level,
    } = init;
    let block_size = prefs.block_size;
    let st = ParseState {
        prefs,
        op_mode,
        c_level,
        c_level_last: -10000,
        legacy_format: false,
        force_stdout,
        force_overwrite: false,
        main_pause: false,
        multiple_inputs,
        all_arguments_are_files: false,
        nb_workers,
        input_filename: None,
        output_filename,
        dictionary_filename: None,
        in_file_names: Vec::new(),
        recursive: false,
        block_size,
        bench_config: BenchConfig::default(),
        exit_early: false,
        display_level,
        help: HelpRequest::NoHelp,
        ignored_inputs: Vec::new(),
        block_size_notices: Vec::new(),
        lz4c_legacy,
    };
    assert(names_view(st.in_file_names@) =~= Seq::empty());
    assert(names_view(st.ignored_inputs@) =~= Seq::empty());
    assert(st.block_size_notices@ =~= Seq::empty());
    st
}

/// The arguments that the final state holds, with the program name.
pub(crate) fn finish(st: ParseState, exe_name: &str) -> (p: ParsedArgs)
    ensures
        parsed_as(p, state_model(st)),
        p.exe_name@ == exe_name@,
{
    ParsedArgs {
        prefs: st.prefs,
        op_mode: st.op_mode,
        c_level: st.c_level,
        c_level_last: st.c_level_last,
        legacy_format: st.legacy_format,
        force_stdout: st.force_stdout,
        force_overwrite: st.force_overwrite,
        main_pause: st.main_pause,
        multiple_inputs: st.multiple_inputs,
        nb_workers: st.nb_workers,
        input_filename: st.input_filename,
        output_filename: st.output_filename,
        dictionary_filename: st.dictionary_filename,
        in_file_names: st.in_file_names,
        recursive: st.recursive,
        block_size: st.block_size,
        bench_config: st.bench_config,
        exit_early: st.exit_early,
        exe_name: text(exe_name),
        display_level: st.display_level,
        help: st.help,
        ignored_inputs: st.ignored_inputs,
        block_size_notices: st.block_size_notices,
    }
}

/// Sets the compression level.
pub(crate) fn set_level(st: &mut ParseState, v: i32)
    ensures
        state_model(*final(st)) == (ArgsModel { c_level: v, ..state_model(*old(st)) }),
{
    st.c_level = v;
}

/// Sets the last level of a benchmark range.
pub(crate) fn set_level_last(st: &mut ParseState, v: i32)
    ensures
        state_model(*final(st)) == (ArgsModel { c_level_last: v, ..state_model(*old(st)) }),
{
    st.c_level_last = v;
}

/// Sets the number of workers.
pub(crate) fn set_workers(st: &mut ParseState, v: usize)
    ensures
        state_model(*final(st)) == (ArgsModel { nb_workers: v, ..state_model(*old(st)) }),
{
    st.nb_workers = v;
}

/// Names the dictionary.
pub(crate) fn set_dictionary(st: &mut ParseState, d: String)
    ensures
        state_model(*final(st)) == (ArgsModel { dict: Some(d@), ..state_model(*old(st)) }),
{
    st.dictionary_filename = Some(d);
}

/// Sets the benchmark duration, and its verbosity to the current one.
pub(crate) fn set_seconds(st: &mut ParseState, v: u32)
    ensures
        state_model(*final(st)) == (ArgsModel {
            bench: BenchConfig {
                display_level: state_model(*old(st)).display_level,
                nb_seconds: v,
                ..state_model(*old(st)).bench
            },
            ..state_model(*old(st))
        }),
{
    st.bench_config = BenchConfig { display_level: st.display_level, nb_seconds: v, ..st.bench_config };
}

/// Links or separates the blocks.
pub(crate) fn set_block_independence(st: &mut ParseState, independent: bool)
    ensures
        state_model(*final(st)) == (ArgsModel {
            prefs: Prefs { block_independence: independent, ..state_model(*old(st)).prefs },
            ..state_model(*old(st))
        }),
{
    st.prefs.set_block_mode(if independent { BlockMode::Independent } else { BlockMode::Linked });
}

/// Asks for block checksums.
pub(crate) fn set_block_checksum(st: &mut ParseState)
    ensures
        state_model(*final(st)) == (ArgsModel {
            prefs: Prefs { block_checksum: true, ..state_model(*old(st)).prefs },
            ..state_model(*old(st))
        }),
{
    st.prefs.set_block_checksum_mode(true);
}

/// Chooses the block size by identifier (4 to 7).
pub(crate) fn choose_block_size_id(st: &mut ParseState, v: u32)
    requires
        4 <= v <= 7,
    ensures
        state_model(*final(st)) == (ArgsModel {
            prefs: Prefs { block_size_id: v, block_size: block_size_of_id(v), ..state_model(*old(st)).prefs },
            block_size: block_size_of_id(v),
            bench: BenchConfig { block_size: block_size_of_id(v), ..state_model(*old(st)).bench },
            notices: state_model(*old(st)).notices.push(block_size_of_id(v)),
            ..state_model(*old(st))
        }),
{
    let bs = st.prefs.set_block_size_id(v);
    st.block_size = bs;
    st.bench_config = BenchConfig { block_size: bs, ..st.bench_config };
    st.block_size_notices.push(bs);
}

/// Chooses the block size in bytes, within the bounds.
pub(crate) fn choose_block_size(st: &mut ParseState, v: u32)
    ensures
        state_model(*final(st)) == (ArgsModel {
            prefs: Prefs {
                block_size: clamp_block_size(v as usize),
                block_size_id: block_size_id_for(clamp_block_size(v as usize)),
                ..state_model(*old(st)).prefs
            },
            block_size: clamp_block_size(v as usize),
            bench: BenchConfig { block_size: clamp_block_size(v as usize), ..state_model(*old(st)).bench },
            notices: state_model(*old(st)).notices.push(clamp_block_size(v as usize)),
            ..state_model(*old(st))
        }),
{
    let bs = st.prefs.set_block_size(v as usize);
    st.block_size = bs;
    st.bench_config = BenchConfig { block_size: bs, ..st.bench_config };
    st.block_size_notices.push(bs);
}

/// Takes a name as the next input when every name is one.
pub(crate) fn push_input(st: &mut ParseState, name: String)
    ensures
        state_model(*final(st)) == (ArgsModel {
            inputs: state_model(*old(st)).inputs.push(name@),
            ..state_model(*old(st))
        }),
{
    proof { lemma_names_push(st.in_file_names@, name); }
    st.in_file_names.push(name);
}

/// Takes a name as ignored.
pub(crate) fn push_ignored(st: &mut ParseState, name: String)
    ensures
        state_model(*final(st)) == (ArgsModel {
            ignored: state_model(*old(st)).ignored.push(name@),
            ..state_model(*old(st))
        }),
{
    proof { lemma_names_push(st.ignored_inputs@, name); }
    st.ignored_inputs.push(name);
}

/// Names the input.
pub(crate) fn set_input(st: &mut ParseState, name: String)
    ensures
        state_model(*final(st)) == (ArgsModel { input: Some(name@), ..state_model(*old(st)) }),
{
    st.input_filename = Some(name);
}

/// Names the output.
pub(crate) fn set_output(st: &mut ParseState, name: String)
    ensures
        state_model(*final(st)) == (ArgsModel { output: Some(name@), ..state_model(*old(st)) }),
{
    st.output_filename = Some(name);
}

/// Takes every following word as a name.
pub(crate) fn set_all_files(st: &mut ParseState)
    ensures
        state_model(*final(st)) == (ArgsModel { all_files: true, ..state_model(*old(st)) }),
{
    st.all_arguments_are_files = true;
}

fn more_verbose(v: u32) -> (r: u32)
    ensures
        r == more_verbose_spec(v),
{
    if v < u32::MAX { v + 1 } else { v }
}

fn less_verbose(v: u32) -> (r: u32)
    ensures
        r == less_verbose_spec(v),
{
    if v > 0 { v - 1 } else { 0 }
}

/// What a flag does to the preferences.
fn set_flag_prefs(p: &mut Prefs, f: Flag)
    ensures
        *final(p) == flag_prefs(*old(p), f),
{
    proof { reveal(flag_prefs); }
    match f {
        Flag::Legacy => p.block_size = LEGACY_BLOCK_SIZE,
        Flag::PassThrough => p.pass_through = true,
        Flag::ForceAll | Flag::Overwrite => p.overwrite = true,
        Flag::NoOverwrite => p.overwrite = false,
        Flag::Keep => p.remove_src_file = false,
        Flag::Remove => p.remove_src_file = true,
        Flag::FrameCrc => p.stream_checksum = true,
        Flag::NoFrameCrc => p.stream_checksum = false,
        Flag::NoCrc => {
            p.stream_checksum = false;
            p.block_checksum = false;
        },
        Flag::ContentSize => p.content_size_flag = true,
        Flag::NoContentSize => p.content_size_flag = false,
        Flag::Sparse => p.sparse_file_support = 2,
        Flag::NoSparse => p.sparse_file_support = 0,
        Flag::FavorDecSpeed => p.favor_dec_speed = true,
        _ => {},
    }
}

/// What a flag does to the benchmark settings.
fn flag_bench_of(b: BenchConfig, f: Flag) -> (r: BenchConfig)
    ensures
        r == flag_bench(b, f),
{
    proof { reveal(flag_bench); }
    match f {
        Flag::Decompress => BenchConfig { decode_only: true, ..b },
        Flag::Separately => BenchConfig { bench_separately: true, ..b },
        Flag::FrameCrc => BenchConfig { skip_checksums: false, ..b },
        Flag::NoFrameCrc | Flag::NoCrc => BenchConfig { skip_checksums: true, ..b },
        _ => b,
    }
}

/// What a flag does to the operation mode.
fn flag_op_mode_of(o: OpMode, f: Flag) -> (r: OpMode)
    ensures
        r == flag_op_mode(o, f),
{
    proof { reveal(flag_op_mode); }
    match f {
        Flag::Compress => OpMode::Compress,
        Flag::Decompress => if o != OpMode::Bench { OpMode::Decompress } else { o },
        Flag::Test => OpMode::Test,
        Flag::List => OpMode::List,
        Flag::Bench => OpMode::Bench,
        _ => o,
    }
}

/// The help text a flag asks for.
fn flag_help_of(h: HelpRequest, f: Flag) -> (r: HelpRequest)
    ensures
        r == flag_help(h, f),
{
    proof { reveal(flag_help); }
    match f {
        Flag::Version => HelpRequest::Version,
        Flag::Usage => HelpRequest::Usage,
        Flag::LongHelp => HelpRequest::LongHelp,
        _ => h,
    }
}

/// What a flag does to the verbosity.
fn flag_display_level_of(v: u32, f: Flag) -> (r: u32)
    ensures
        r == flag_display_level(v, f),
{
    proof { reveal(flag_display_level); }
    match f {
        Flag::Verbose => more_verbose(v),
        Flag::Quiet => less_verbose(v),
        _ => v,
    }
}

/// Applies an option that takes no value.
pub(crate) fn apply_flag_to(st: &mut ParseState, f: Flag)
    ensures
        state_model(*final(st)) == apply_flag(state_model(*old(st)), f),
{
    set_flag_prefs(&mut st.prefs, f);
    st.bench_config = flag_bench_of(st.bench_config, f);
    st.op_mode = flag_op_mode_of(st.op_mode, f);
    st.help = flag_help_of(st.help, f);
    st.display_level = flag_display_level_of(st.display_level, f);
    let legacy = f == Flag::Legacy;
    let to_stdout = f == Flag::PassThrough || f == Flag::Stdout;
    st.c_level = if f == Flag::Best { LZ4HC_CLEVEL_MAX } else { st.c_level };
    st.legacy_format = st.legacy_format || legacy;
    st.block_size = if legacy { LEGACY_BLOCK_SIZE } else { st.block_size };
    st.force_stdout = st.force_stdout || to_stdout;
    st.force_overwrite = st.force_overwrite || f == Flag::ForceAll;
    st.main_pause = st.main_pause || f == Flag::Pause;
    st.multiple_inputs = st.multiple_inputs || f == Flag::List || f == Flag::Bench || f == Flag::Recursive
        || f == Flag::Multiple;
    st.recursive = st.recursive || f == Flag::Recursive;
    st.exit_early = st.exit_early || f == Flag::Version || f == Flag::Usage || f == Flag::LongHelp;
    if to_stdout {
        st.output_filename = Some(text(STDOUT_MARK));
    }
}

} // verus!
