//! The starting state of the command line, derived from the name the
//! program was called by: `lz4cat` decompresses to standard output, `unlz4`
//! decompresses, `lz4c` accepts the legacy short options.

use vstd::prelude::*;
use vstd::string::StringExecFns;

use crate::cli::arg_utils::{exe_name_match, exe_name_matches, last_name_from_path, name_start};
use crate::cli::constants::{LZ4CAT, LZ4_LEGACY, UNLZ4};
use crate::cli::op_mode::{
    c_level_from_env, init_c_level_from, init_nb_workers_from, nb_workers_from_env, opt_view,
    OpMode, LZ4_CLEVEL_DEFAULT, LZ4_NBWORKERS_DEFAULT,
};
use crate::io::file_io::STDOUT_MARK;
use crate::io::prefs::{default_prefs, Prefs, LZ4IO_BLOCKSIZEID_DEFAULT};

verus! {

/// Starting state of the command line.
#[derive(Debug, Clone)]
pub struct CliInit {
    /// Preferences: the defaults, with 4 MiB blocks.
    pub prefs: Prefs,
    /// Mode before the arguments are read.
    pub op_mode: OpMode,
    /// The legacy short options (`-c0`, `-c1`, `-c2`, `-hc`, `-y`) are accepted.
    pub lz4c_legacy: bool,
    /// Every name on the command line is an input.
    pub multiple_inputs: bool,
    /// Compression level before the arguments are read.
    pub c_level: i32,
    /// Worker count before the arguments are read.
    pub nb_workers: usize,
    /// Output goes to standard output.
    pub force_stdout: bool,
    /// Output name chosen by the program name.
    pub output_filename: Option<String>,
    /// Verbosity that the program name imposes, if any.
    pub display_level_override: Option<u32>,
    /// Verbosity before the arguments are read (2, or 1 for `lz4cat`).
    pub display_level: u32,
}

/// The program name within a path.
pub open spec fn exe_of(argv0: Seq<char>) -> Seq<char> {
    argv0.subrange(name_start(argv0), argv0.len() as int)
}

/// The starting state for the program path `argv0`, with the given
/// compression level and worker count.
pub open spec fn init_matches(r: CliInit, argv0: Seq<char>, c_level: i32, nb_workers: usize) -> bool {
    let exe = exe_of(argv0);
    let cat = exe_name_matches(exe, LZ4CAT@);
    let un = exe_name_matches(exe, UNLZ4@);
    let legacy = exe_name_matches(exe, LZ4_LEGACY@);
    &&& r.prefs == (Prefs {
        overwrite: cat,
        pass_through: cat,
        block_size_id: 7,
        block_size: 4194304,
        ..default_prefs()
    })
    &&& r.op_mode == (if cat || un { OpMode::Decompress } else { OpMode::Auto })
    &&& r.lz4c_legacy == legacy
    &&& r.multiple_inputs == cat
    &&& r.force_stdout == cat
    &&& (if cat {
        r.output_filename is Some && r.output_filename->0@ == STDOUT_MARK@
    } else {
        r.output_filename is None
    })
    &&& r.display_level_override == (if cat { Some(1u32) } else { None })
    &&& r.display_level == (if cat { 1u32 } else { 2u32 })
    &&& r.c_level == c_level
    &&& r.nb_workers == nb_workers
}

/// The starting state for the program path `argv0`, with the default
/// compression level and worker count.
pub fn detect_alias(argv0: &str) -> (r: CliInit)
    ensures
        init_matches(r, argv0@, LZ4_CLEVEL_DEFAULT, LZ4_NBWORKERS_DEFAULT),
{
    let exe_name = last_name_from_path(argv0);
    let mut prefs = Prefs::default();
    prefs.overwrite = false;
    prefs.set_block_size_id(LZ4IO_BLOCKSIZEID_DEFAULT);

    let mut op_mode = OpMode::Auto;
    let mut lz4c_legacy = false;
    let mut multiple_inputs = false;
    let mut force_stdout = false;
    let mut output_filename: Option<String> = None;
    let mut display_level_override: Option<u32> = None;
    let mut display_level: u32 = 2;

    if exe_name_match(exe_name, LZ4CAT) {
        op_mode = OpMode::Decompress;
        prefs.set_overwrite(true);
        prefs.set_pass_through(true);
        prefs.set_remove_src_file(false);
        force_stdout = true;
        output_filename = Some(String::from_str(STDOUT_MARK));
        display_level_override = Some(1);
        display_level = 1;
        multiple_inputs = true;
    }
    if exe_name_match(exe_name, UNLZ4) {
        op_mode = OpMode::Decompress;
    }
    if exe_name_match(exe_name, LZ4_LEGACY) {
        lz4c_legacy = true;
    }
    CliInit {
        prefs,
        op_mode,
        lz4c_legacy,
        multiple_inputs,
        c_level: LZ4_CLEVEL_DEFAULT,
        nb_workers: LZ4_NBWORKERS_DEFAULT,
        force_stdout,
        output_filename,
        display_level_override,
        display_level,
    }
}

/// The starting state for the program path `argv0`, the compression level
/// and worker count taken from the values of `LZ4_CLEVEL` and
/// `LZ4_NBWORKERS` (`None` when unset).
pub fn detect_alias_with_env(argv0: &str, c_level_env: Option<&str>, nb_workers_env: Option<&str>) -> (r: CliInit)
    ensures
        init_matches(
            r,
            argv0@,
            c_level_from_env(opt_view(c_level_env)),
            nb_workers_from_env(opt_view(nb_workers_env)),
        ),
{
    let mut init = detect_alias(argv0);
    init.c_level = init_c_level_from(c_level_env);
    init.nb_workers = init_nb_workers_from(nb_workers_env);
    init
}

} // verus!
