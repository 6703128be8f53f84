//! The RESP wire format: frames, how they are written, and how they are read
//! back from a byte buffer.
use vstd::prelude::*;
use bytes::BytesMut;
use crate::buffer::buffer_bytes;
use frame::FrameModel;

pub mod decode;
pub mod frame;
pub mod map;
pub mod encode;
pub mod parse;
pub mod laws;
pub mod debug;

verus! {

/// Why a frame could not be read.
#[derive(Debug, PartialEq)]
pub enum RespError {
    InvalidFrame(String),
    InvalidFrameType(String),
    InvalidFrameLength(String),
    NotComplete,
    Utf8Error,
    ParseIntError,
    ParseFloatError,
    FromUtf8Error,
}

/// The mathematical value of a [`RespError`]: messages as character sequences.
pub enum ErrorModel {
    InvalidFrame(Seq<char>),
    InvalidFrameType(Seq<char>),
    InvalidFrameLength(Seq<char>),
    NotComplete,
    Utf8Error,
    ParseIntError,
    ParseFloatError,
    FromUtf8Error,
}

impl View for RespError {
    type V = ErrorModel;

    open spec fn view(&self) -> ErrorModel {
        match self {
            RespError::InvalidFrame(m) => ErrorModel::InvalidFrame(m@),
            RespError::InvalidFrameType(m) => ErrorModel::InvalidFrameType(m@),
            RespError::InvalidFrameLength(m) => ErrorModel::InvalidFrameLength(m@),
            RespError::NotComplete => ErrorModel::NotComplete,
            RespError::Utf8Error => ErrorModel::Utf8Error,
            RespError::ParseIntError => ErrorModel::ParseIntError,
            RespError::ParseFloatError => ErrorModel::ParseFloatError,
            RespError::FromUtf8Error => ErrorModel::FromUtf8Error,
        }
    }
}

/// How reading stopped short of a value: with an error, or on an input that the
/// reader cannot handle at all (it would index past the end of its input or
/// overflow an integer). Only the building blocks of reading stop that way, on
/// arguments that the frame readers never give them: no frame reader does
/// (`laws::lemma_decoders_total`).
#[derive(Debug)]
pub enum Stop {
    Fail(RespError),
    Abort,
}

/// The mathematical value of a [`Stop`].
pub enum Halt {
    Fail(ErrorModel),
    Abort,
}

impl View for Stop {
    type V = Halt;

    open spec fn view(&self) -> Halt {
        match self {
            Stop::Fail(e) => Halt::Fail(e@),
            Stop::Abort => Halt::Abort,
        }
    }
}

/// A stop that carries the given error.
pub open spec fn fail(e: ErrorModel) -> Halt {
    Halt::Fail(e)
}

/// The value of an exec outcome whose success is a count.
pub open spec fn count_result(r: Result<usize, Stop>) -> Result<nat, Halt> {
    match r {
        Ok(n) => Ok(n as nat),
        Err(e) => Err(e@),
    }
}

/// Writing a value as the bytes of its frame.
pub trait RespEncode {
    /// The bytes that stand on the wire for the value.
    spec fn encoding(&self) -> Seq<u8>;

    /// The bytes of the frame.
    fn encode(&self) -> (r: Vec<u8>)
        ensures
            r@ == self.encoding(),
    ;
}

/// Reading a value from the front of a buffer.
pub trait RespDecode: Sized {
    /// The frame that the value is.
    spec fn as_frame(&self) -> FrameModel;

    /// What `decode` takes from the front of a buffer holding `s`: the frame read, or why
    /// it stopped, with the number of bytes it consumed.
    spec fn spec_decode(s: Seq<u8>) -> (Result<FrameModel, Halt>, nat);

    /// What `expect_length` measures for a buffer holding `s`.
    spec fn spec_expect_length(s: Seq<u8>) -> Result<nat, Halt>;

    /// Reads a value from the front of the buffer, consuming what it read.
    fn decode(buf: &mut BytesMut) -> (r: Result<Self, RespError>)
        ensures
            ({
                let (want, used) = Self::spec_decode(buffer_bytes(*old(buf)));
                &&& buffer_bytes(*final(buf)) == buffer_bytes(*old(buf)).skip(used as int)
                &&& match r {
                    Ok(v) => want == Ok::<FrameModel, Halt>(v.as_frame()),
                    Err(e) => want == Err::<FrameModel, Halt>(fail(e@)),
                }
            }),
    ;

    /// Measures how many bytes the value at the front of `buf` spans, from its length
    /// lines alone.
    fn expect_length(buf: &[u8]) -> (r: Result<usize, RespError>)
        ensures
            match r {
                Ok(n) => Self::spec_expect_length(buf@) == Ok::<nat, Halt>(n as nat),
                Err(e) => Self::spec_expect_length(buf@) == Err::<nat, Halt>(fail(e@)),
            },
    ;
}

} // verus!
