//! Errors of the library.
use vstd::prelude::*;

use crate::render::FloatText;
use crate::result::Value;
use crate::text::concat2;
#[allow(unused_imports)]
use crate::{render, result::ValueModel};

verus! {

/// What can go wrong.
#[derive(Debug)]
pub enum Error {
    /// A file could not be read; holds the operating system's message.
    Io(String),
    /// The pattern is no regular expression, or has no capture group.
    Regex(String),
    /// The payload is no string of hexadecimal bytes.
    HexDecode(String),
    /// The schema cannot be understood, or the data does not follow it.
    Protocol(String),
    /// Like `Protocol`; the message ends with the value that it is about.
    ProtocolValue(String, Value),
}

/// The mathematical counterpart of [`Error`].
pub enum ErrorModel {
    Io(Seq<char>),
    Regex(Seq<char>),
    HexDecode(Seq<char>),
    Protocol(Seq<char>),
    ProtocolValue(Seq<char>, ValueModel),
}

impl View for Error {
    type V = ErrorModel;

    open spec fn view(&self) -> ErrorModel {
        match *self {
            Error::Io(m) => ErrorModel::Io(m@),
            Error::Regex(m) => ErrorModel::Regex(m@),
            Error::HexDecode(m) => ErrorModel::HexDecode(m@),
            Error::Protocol(m) => ErrorModel::Protocol(m@),
            Error::ProtocolValue(m, v) => ErrorModel::ProtocolValue(m@, v@),
        }
    }
}

/// A result by what its value or its error stands for.
pub open spec fn outcome<T: View>(r: Result<T, Error>) -> Result<T::V, ErrorModel> {
    match r {
        Ok(v) => Ok(v@),
        Err(e) => Err(e@),
    }
}

/// An optional thing by what it stands for.
pub open spec fn seen<T: View>(o: Option<T>) -> Option<T::V> {
    match o {
        Some(x) => Some(x@),
        None => None,
    }
}

/// A result that may be absent, by what its value or its error stands for.
pub open spec fn outcome_seen<T: View>(r: Result<Option<T>, Error>) -> Result<
    Option<T::V>,
    ErrorModel,
> {
    match r {
        Ok(o) => Ok(seen(o)),
        Err(e) => Err(e@),
    }
}

/// Every floating-point number in the error has its texts in `t`.
pub open spec fn error_covered(e: ErrorModel, t: render::FloatTable) -> bool {
    match e {
        ErrorModel::ProtocolValue(_, v) => render::covered(v, t),
        _ => true,
    }
}

/// The floating-point numbers in the error.
pub open spec fn error_floats(e: ErrorModel) -> Seq<u64> {
    match e {
        ErrorModel::ProtocolValue(_, v) => render::floats_in(v),
        _ => Seq::empty(),
    }
}

/// The text of an error.
pub open spec fn error_text(e: ErrorModel, t: render::FloatTable) -> Seq<char> {
    match e {
        ErrorModel::Io(m) => "IO error: "@ + m,
        ErrorModel::Regex(m) => "Regex error: "@ + m,
        ErrorModel::HexDecode(m) => "Hex decode error: "@ + m,
        ErrorModel::Protocol(m) => "Protocol error: "@ + m,
        ErrorModel::ProtocolValue(m, v) => "Protocol error: "@ + (m + render::debug_text(v, t)),
    }
}

impl Error {
    /// The floating-point numbers in the error, whose texts
    /// [`message`](Error::message) asks for.
    pub fn floats(&self) -> (r: Vec<u64>)
        ensures
            r@ == error_floats(self@),
    {
        match self {
            Error::ProtocolValue(_, v) => v.floats(),
            _ => Vec::new(),
        }
    }

    /// The text of the error.
    pub fn message(&self, floats: &Vec<FloatText>) -> (r: String)
        requires
            error_covered(self@, render::float_table(floats@)),
        ensures
            r@ == error_text(self@, render::float_table(floats@)),
    {
        match self {
            Error::Io(m) => concat2("IO error: ", m.as_str()),
            Error::Regex(m) => concat2("Regex error: ", m.as_str()),
            Error::HexDecode(m) => concat2("Hex decode error: ", m.as_str()),
            Error::Protocol(m) => concat2("Protocol error: ", m.as_str()),
            Error::ProtocolValue(m, v) => {
                let quoted = concat2(m.as_str(), v.debug(floats).as_str());
                concat2("Protocol error: ", quoted.as_str())
            },
        }
    }
}

} // verus!
