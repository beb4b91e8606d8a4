//! Screen recording for the Linux framebuffer: the capture file format that
//! the recorder writes and the compiler reads, the turning of captured frames
//! into raw, PNG and H.264 outputs, and the framebuffer description read from
//! sysfs.
use vstd::prelude::*;

pub mod capture;
pub mod cli;
pub mod record;
pub mod text;
pub mod png;
pub mod h264;
pub mod compile;
pub mod framebuffer;

verus! {
} // verus!
