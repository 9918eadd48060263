//! Bounded-buffer UTF-8 to UTF-16 transcoding for console-style output.
//!
//! The core of the crate is a transcoding contract: given UTF-8 input text and
//! a fixed code-unit capacity, produce as many complete characters' worth of
//! UTF-16 code units as fit, and report exactly how many input bytes they
//! consumed. Two interchangeable strategies implement the contract, and a
//! sink drainer forwards their output to a write primitive that may perform
//! partial writes.

pub mod codec;
pub mod sink;
pub mod transcode;
