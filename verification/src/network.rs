//! The framing of a connection: turning the bytes that arrive into request frames
//! and response frames into the bytes that leave.
use vstd::prelude::*;
use bytes::BytesMut;
use crate::buffer::{buffer_bytes, buffer_extend};
use crate::resp::{fail, ErrorModel, Halt, RespDecode, RespEncode, RespError};
use crate::resp::frame::{FrameModel, RespFrame};
use crate::resp::parse::decode_frame;

verus! {

/// Splits a byte stream into frames and writes frames into it.
pub struct RespFrameCodec;

/// What the codec hands on for a buffer holding `s`: a frame, nothing yet (the frame
/// is not complete), or the error; with the bytes consumed.
pub open spec fn codec_decode(s: Seq<u8>) -> (Result<Option<FrameModel>, Halt>, nat) {
    match decode_frame(s) {
        (Ok(f), n) => (Ok(Some(f)), n),
        (Err(Halt::Fail(ErrorModel::NotComplete)), n) => (Ok(None), n),
        (Err(h), n) => (Err(h), n),
    }
}

impl RespFrameCodec {
    /// Takes the next frame from the buffer: `Ok(None)` when it is not complete yet.
    pub fn decode(&mut self, src: &mut BytesMut) -> (r: Result<Option<RespFrame>, RespError>)
        ensures
            ({
                let (want, used) = codec_decode(buffer_bytes(*old(src)));
                &&& buffer_bytes(*final(src)) == buffer_bytes(*old(src)).skip(used as int)
                &&& match r {
                    Ok(Some(f)) => want == Ok::<Option<FrameModel>, Halt>(Some(f.model())),
                    Ok(None) => want == Ok::<Option<FrameModel>, Halt>(None),
                    Err(e) => want == Err::<Option<FrameModel>, Halt>(fail(e@)),
                }
            }),
    {
        match RespFrame::decode(src) {
            Ok(f) => Ok(Some(f)),
            Err(RespError::NotComplete) => Ok(None),
            Err(e) => Err(e),
        }
    }

    /// Appends the bytes of a frame to the buffer.
    pub fn encode(&mut self, item: RespFrame, dst: &mut BytesMut)
        ensures
            buffer_bytes(*final(dst)) == buffer_bytes(*old(dst)) + item.encoding(),
    {
        let bytes = item.encode();
        buffer_extend(dst, bytes.as_slice());
    }
}

} // verus!
