//! The command line: recording a capture, or compiling one.
use vstd::prelude::*;
use crate::compile::OutputFormat;

verus! {

/// Arguments passed by the command line.
pub struct Cli {
    pub command: Commands,
}

/// The choice between recording and compiling a video, each with its
/// arguments.
pub enum Commands {
    Record(RecordArgs),
    Compile(CompileArgs),
}

/// Arguments of `Commands::Record`: the capture file to write and the
/// framebuffer device to read.
pub struct RecordArgs {
    pub file: String,
    pub device: String,
}

/// Arguments of `Commands::Compile`: the capture file to read, the output
/// format and the output name.
pub struct CompileArgs {
    pub file: String,
    pub format: OutputFormat,
    pub output: String,
}

} // verus!
