//! The settings of the compressor and how the command line sets them. The command
//! line itself is parsed by the program around the library, which hands the parsed
//! arguments to [`init_bz_opts`].
use vstd::prelude::*;

verus! {

/// Define the alternate compression algorithms
#[derive(Clone, Copy, PartialEq, Eq, Debug)]
pub enum Algorithms {
    /// Use the standard bzip2 Burrows-Wheeler Transform algorithm when compressing
    Julian,
    /// Use SAIS based Burrow Wheeler Transform algorithm when compressing
    Sais,
    /// Use simple Burrow Wheeler Transform algorithm when compressing
    Simple,
    /// Parallel - uses custom BWT sorting alorithm with Rayon when compressing
    Parallel,
}

/// Define three operational modes
#[derive(Clone, Copy, PartialEq, Eq, Debug)]
pub enum Mode {
    Zip,
    Unzip,
    Test,
}

/// Define the two output channels
#[derive(Clone, Copy, PartialEq, Eq, Debug)]
pub enum Output {
    File,
    Stdout,
}

/// Defines a "fallback" mode for worst case data - may be depricated
#[derive(Clone, Copy, PartialEq, Eq, Debug)]
pub enum WorkFactor {
    Normal,
    Fallback,
}

impl WorkFactor {
    /// The work factor as a number: 30 for normal data, 1 for the fallback.
    pub fn value(&self) -> (v: u32)
        ensures
            v == (match self {
                WorkFactor::Normal => 30u32,
                WorkFactor::Fallback => 1u32,
            }),
    {
        match self {
            WorkFactor::Normal => 30,
            WorkFactor::Fallback => 1,
        }
    }
}

/// NOT YET IMPLEMENTED. Used during the library mode by the calling program.
#[derive(Clone, Copy, PartialEq, Eq, Debug)]
pub enum Status {
    Init,
    NoData,
}

/// Define all user settable options to control program behavior
#[derive(Debug)]
pub struct BzOpts {
    /// Optional name of file to read for input
    pub file: Option<String>,
    /// Maximum input block size to process during each loop
    pub block_size: u8,
    /// User feedback level setting
    pub op_mode: Mode,
    /// Don't remove input files after processing
    pub keep_input_files: bool,
    /// Optional setting used for oddly constructed data - may be depricated
    pub work_factor: WorkFactor,
    /// Silently overwrite existing files with the same name
    pub force_overwrite: bool,
    /// Location where output is sent
    pub output: Output,
    /// Current status of progress - not yet used
    pub status: Status,
    /// Algorithm used
    pub algorithm: Algorithms,
    /// Iterations used to test/optimize small block compression
    pub iterations: usize,
}

impl BzOpts {
    /// Set default parameters on program start
    pub fn new() -> (opts: Self)
        ensures
            opts.file is None,
            opts.block_size == 9,
            opts.op_mode == Mode::Test,
            !opts.keep_input_files,
            opts.work_factor == WorkFactor::Normal,
            !opts.force_overwrite,
            opts.output == Output::File,
            opts.status == Status::Init,
            opts.algorithm == Algorithms::Julian,
            opts.iterations == 4,
    {
        BzOpts {
            file: None,
            block_size: 9,
            op_mode: Mode::Test,
            keep_input_files: false,
            work_factor: WorkFactor::Normal,
            force_overwrite: false,
            output: Output::File,
            status: Status::Init,
            algorithm: Algorithms::Julian,
            iterations: 4,
        }
    }
}

/// The command line, as parsed: what each option asked for.
#[derive(Debug)]
pub struct Args {
    /// Filename of file to process
    pub filename: Option<String>,
    /// Perform compression on the input file
    pub compress: bool,
    /// Perform decompression on the input file
    pub decompress: bool,
    ///Force overwriting output file
    pub force: bool,
    /// Keep input file
    pub keep: bool,
    /// Send output to the terminal
    pub stdout: bool,
    /// Shift into fallback mode, useful for highly repetitive data
    pub workfactor: bool,
    /// Reduce memory requirements
    pub small: bool,
    /// Test compressed file integrity
    pub test: bool,
    /// Alias for 100k block mode
    pub fast: bool,
    /// Alias for 900k block mode
    pub best: bool,
    /// Sets verbosity. -v1 shows very little, -v4 is chatty
    pub v: u8,
    /// Displays license information
    pub license: bool,
    /// 1..9 - Set the block size from 100-900k. 900k is the default
    pub block_size: Option<u8>,
    /// Sort algorithm choice
    pub algorithm: Option<Algorithms>,
    /// Compression block iterations. -i4 is the value bzip2 uses.
    pub iterations: usize,
}

/// How much the log shows.
#[derive(Clone, Copy, PartialEq, Eq, Debug)]
pub enum LogLevel {
    Off,
    Error,
    Info,
    Debug,
}

/// The log level that the verbosity option asks for: 1 shows nothing, 2 errors, 3 the
/// normal information, anything else everything.
pub open spec fn log_level_of(v: u8) -> LogLevel {
    if v == 1 {
        LogLevel::Off
    } else if v == 2 {
        LogLevel::Error
    } else if v == 3 {
        LogLevel::Info
    } else {
        LogLevel::Debug
    }
}

/// The operating mode after the mode options: the last of compress, decompress and
/// test that was given wins.
pub open spec fn mode_after(args: &Args, before: Mode) -> Mode {
    if args.test {
        Mode::Test
    } else if args.decompress {
        Mode::Unzip
    } else if args.compress {
        Mode::Zip
    } else {
        before
    }
}

/// Which mode the options ask for: the test flag asks to test whatever else is given,
/// the decompress flag to decompress unless testing, the compress flag alone to compress,
/// and with none of them the mode stays as it was.
pub proof fn lemma_mode_choice(args: &Args, before: Mode)
    ensures
        args.test ==> mode_after(args, before) == Mode::Test,
        !args.test && args.decompress ==> mode_after(args, before) == Mode::Unzip,
        !args.test && !args.decompress && args.compress ==> mode_after(args, before) == Mode::Zip,
        !args.test && !args.decompress && !args.compress ==> mode_after(args, before) == before,
        mode_after(args, before) == Mode::Zip ==> args.compress || (before == Mode::Zip && !args.test
            && !args.decompress),
{
}

/// The block size after the size options: an explicit size overrides `--best` (900k),
/// which overrides `--fast` (100k), which overrides `--small` (200k).
pub open spec fn block_size_after(args: &Args, before: u8) -> u8 {
    if args.block_size is Some {
        args.block_size->0
    } else if args.best {
        9
    } else if args.fast {
        1
    } else if args.small {
        2
    } else {
        before
    }
}

/// Put command line information into our internal structure, and return the log level
/// that the verbosity option asks for.
pub fn init_bz_opts(bz_opts: &mut BzOpts, args: &Args) -> (level: LogLevel)
    ensures
        level == log_level_of(args.v),
        final(bz_opts).file == (match args.filename {
            Some(f) => Some(f),
            None => old(bz_opts).file,
        }),
        final(bz_opts).op_mode == mode_after(args, old(bz_opts).op_mode),
        args.test ==> final(bz_opts).op_mode == Mode::Test,
        !args.test && args.decompress ==> final(bz_opts).op_mode == Mode::Unzip,
        !args.test && !args.decompress && args.compress ==> final(bz_opts).op_mode == Mode::Zip,
        !args.test && !args.decompress && !args.compress ==> final(bz_opts).op_mode == old(bz_opts).op_mode,
        final(bz_opts).force_overwrite == args.force,
        final(bz_opts).keep_input_files == args.keep,
        final(bz_opts).output == (if args.stdout {
            Output::Stdout
        } else {
            old(bz_opts).output
        }),
        final(bz_opts).work_factor == (if args.workfactor {
            WorkFactor::Fallback
        } else {
            old(bz_opts).work_factor
        }),
        final(bz_opts).block_size == block_size_after(args, old(bz_opts).block_size),
        final(bz_opts).iterations == args.iterations,
        final(bz_opts).algorithm == (match args.algorithm {
            Some(a) => a,
            None => Algorithms::Julian,
        }),
        final(bz_opts).status == old(bz_opts).status,
{
    let file = match &args.filename {
        Some(f) => Some(f.clone()),
        None => bz_opts.file.clone(),
    };
    bz_opts.file = file;
    // the last of compress, decompress and test wins
    bz_opts.op_mode = if args.test {
        Mode::Test
    } else if args.decompress {
        Mode::Unzip
    } else if args.compress {
        Mode::Zip
    } else {
        bz_opts.op_mode
    };
    bz_opts.force_overwrite = args.force;
    bz_opts.keep_input_files = args.keep;
    bz_opts.output = if args.stdout {
        Output::Stdout
    } else {
        bz_opts.output
    };
    bz_opts.work_factor = if args.workfactor {
        WorkFactor::Fallback
    } else {
        bz_opts.work_factor
    };
    // NOTE: an explicit block size overwrites the best, fast and small flags!
    bz_opts.block_size = match args.block_size {
        Some(b) => b,
        None => if args.best {
            9
        } else if args.fast {
            1
        } else if args.small {
            2
        } else {
            bz_opts.block_size
        },
    };
    let level = if args.v == 1 {
        LogLevel::Off
    } else if args.v == 2 {
        LogLevel::Error
    } else if args.v == 3 {
        LogLevel::Info
    } else {
        LogLevel::Debug
    };
    bz_opts.iterations = args.iterations;
    bz_opts.algorithm = match args.algorithm {
        Some(a) => a,
        None => Algorithms::Julian,
    };
    level
}

} // verus!
