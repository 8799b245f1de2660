//! Decoding of hex-encoded packets found in log files.
//!
//! A line of a log goes through [`extractor::Extractor`], which finds the
//! payload by a regular expression, [`hex::decode`], which turns it into bytes,
//! and [`decoder::Decoder`], which takes the bytes apart as a schema says.
//! [`pipeline`] puts these together for whole files and for files read line by
//! line.
use vstd::prelude::*;

pub mod cli;
pub mod decoder;
pub mod error;
pub mod extractor;
pub mod filekind;
pub mod float;
pub mod gui;
pub mod hex;
pub mod index;
pub mod ksy;
pub mod laws;
pub mod named;
pub mod pipeline;
pub mod render;
pub mod result;
pub mod text;

pub use crate::error::Error;

verus! {

/// A hex-encoded payload found in a log line.
#[derive(Debug, Clone, Copy)]
pub struct RawPacket<'a> {
    /// The payload as it stands in the log, possibly with white space.
    pub hex: &'a str,
}

impl<'a> View for RawPacket<'a> {
    type V = Seq<char>;

    open spec fn view(&self) -> Seq<char> {
        self.hex@
    }
}

} // verus!
