//! bzip2 options: the settings that control the program, with their defaults.
use vstd::prelude::*;

verus! {

/// Used for logs and reporting
#[derive(Clone, Copy, PartialEq, Eq, PartialOrd, Ord, Debug)]
pub enum Verbosity {
    Quiet,
    Errors,
    Normal,
    Chatty,
}

/// Defines three operational modes
#[derive(Clone, Copy, PartialEq, Eq, Debug)]
pub enum Mode {
    Zip,
    Unzip,
    Test,
}

/// Defines two output channels
#[derive(Clone, Copy, PartialEq, Eq, Debug)]
pub enum Output {
    File,
    Stdout,
}

/// Defines a "fallback" mode for worst case data - may be depricated
#[derive(Clone, Copy, PartialEq, Eq, Debug)]
pub enum WorkFactor {
    Normal,
    Fallback,
}

impl WorkFactor {
    /// The work factor as a number: 30 for normal data, 1 for the fallback.
    pub fn value(&self) -> (v: u32)
        ensures
            v == (match self {
                WorkFactor::Normal => 30u32,
                WorkFactor::Fallback => 1u32,
            }),
    {
        match self {
            WorkFactor::Normal => 30,
            WorkFactor::Fallback => 1,
        }
    }
}

/// Current status of progress
#[derive(Clone, Copy, PartialEq, Eq, Debug)]
pub enum Status {
    Init,
    Okay,
    NoData,
}

/// Defines all user settable options to control program behavior
#[derive(Debug)]
pub struct BzOpts {
    /// Optional name of file to read for input
    pub file: Option<String>,
    /// Maximum input block size to process during each loop
    pub block_size: u8,
    /// User feedback level setting
    pub verbosity: Verbosity,
    /// Operation mode setting
    pub op_mode: Mode,
    /// Don't remove input files after processing
    pub keep_input_files: bool,
    /// Optional setting used for oddly constructed data - may be depricated
    pub work_factor: WorkFactor,
    /// Silently overwrite existing files with the same name
    pub force_overwrite: bool,
    /// Location where output is sent
    pub output: Output,
    /// Current status of progress
    pub status: Status,
}

impl BzOpts {
    /// Instanciated on program start - sets default parameters
    pub fn new() -> (opts: Self)
        ensures
            opts.file is None,
            opts.block_size == 9,
            opts.verbosity == Verbosity::Normal,
            opts.op_mode == Mode::Test,
            !opts.keep_input_files,
            opts.work_factor == WorkFactor::Normal,
            !opts.force_overwrite,
            opts.output == Output::File,
            opts.status == Status::Init,
    {
        BzOpts {
            file: None,
            block_size: 9,
            verbosity: Verbosity::Normal,
            op_mode: Mode::Test,
            keep_input_files: false,
            work_factor: WorkFactor::Normal,
            force_overwrite: false,
            output: Output::File,
            status: Status::Init,
        }
    }
}

} // verus!
