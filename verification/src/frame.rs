//! Framing: one length-prefixed unit of the wire protocol carries exactly
//! one protocol message.
//!
//! A frame is a big-endian `u32` payload length followed by exactly that
//! many payload bytes.  A declared length above [`MAX_PAYLOAD`] is rejected
//! before any payload byte is read or buffered.

use vstd::prelude::*;
use vstd::slice::slice_subrange;

use crate::codec::{be32, de32, encodable, push_u32, spec_decode, spec_encode, MAX_PAYLOAD,
    ProtocolError};
use crate::proto::MudMessage;

verus! {

/// Read the payload length a frame header declares, enforcing the cap.
///
/// This is the only check a reader needs before allocating the payload
/// buffer: a header declaring more than [`MAX_PAYLOAD`] bytes is refused
/// here, so the oversized payload is never read.
pub fn frame_len(len_buf: &[u8; 4]) -> (r: Result<usize, ProtocolError>)
    ensures
        match r {
            Ok(n) => n == de32(len_buf@) && n <= MAX_PAYLOAD,
            Err(e) => e == ProtocolError::FrameTooLarge && de32(len_buf@) > MAX_PAYLOAD,
        },
{
    let n = ((len_buf[0] as u32) << 24) | ((len_buf[1] as u32) << 16) | ((len_buf[2] as u32) << 8)
        | (len_buf[3] as u32);
    if n as usize > MAX_PAYLOAD {
        Err(ProtocolError::FrameTooLarge)
    } else {
        Ok(n as usize)
    }
}

/// Decode one whole frame: header, cap check, then the payload.
///
/// Succeeds exactly when the header fits the cap, the frame holds exactly
/// the declared number of payload bytes, and the payload decodes as a
/// message.
pub fn read_message(frame: &[u8]) -> (r: Result<MudMessage, ProtocolError>)
    ensures
        match r {
            Ok(m) => frame@.len() >= 4 && de32(frame@.subrange(0, 4)) <= MAX_PAYLOAD
                && frame@.len() == 4 + de32(frame@.subrange(0, 4)) && spec_decode(
                frame@.subrange(4, frame@.len() as int),
            ) == Some(m@),
            Err(ProtocolError::FrameTooLarge) => frame@.len() >= 4 && de32(frame@.subrange(0, 4))
                > MAX_PAYLOAD,
            Err(ProtocolError::Malformed) => frame@.len() < 4 || (de32(frame@.subrange(0, 4))
                <= MAX_PAYLOAD && (frame@.len() != 4 + de32(frame@.subrange(0, 4)) || spec_decode(
                frame@.subrange(4, frame@.len() as int),
            ) is None)),
        },
{
    if frame.len() < 4 {
        return Err(ProtocolError::Malformed);
    }
    let n = ((frame[0] as u32) << 24) | ((frame[1] as u32) << 16) | ((frame[2] as u32) << 8) | (
    frame[3] as u32);
    proof {
        let sub = frame@.subrange(0, 4);
        assert(sub[0] == frame@[0]);
        assert(sub[1] == frame@[1]);
        assert(sub[2] == frame@[2]);
        assert(sub[3] == frame@[3]);
    }
    if n as usize > MAX_PAYLOAD {
        return Err(ProtocolError::FrameTooLarge);
    }
    if frame.len() - 4 != n as usize {
        return Err(ProtocolError::Malformed);
    }
    let payload = slice_subrange(frame, 4, frame.len());
    MudMessage::from_bytes(payload)
}

/// Encode one whole frame for a message: header, then the payload.
///
/// Fails exactly when the message's payload would exceed [`MAX_PAYLOAD`]
/// bytes.
pub fn send_message(msg: &MudMessage) -> (r: Result<Vec<u8>, ProtocolError>)
    ensures
        match r {
            Ok(f) => encodable(msg@) && f@ == be32(spec_encode(msg@).len() as u32) + spec_encode(
                msg@,
            ),
            Err(e) => e == ProtocolError::FrameTooLarge && !encodable(msg@),
        },
{
    match msg.to_bytes() {
        Err(e) => Err(e),
        Ok(payload) => {
            let mut frame: Vec<u8> = Vec::new();
            push_u32(&mut frame, payload.len() as u32);
            let ghost mid = frame@;
            let mut k: usize = 0;
            while k < payload.len()
                invariant
                    k <= payload.len(),
                    frame@ == mid + payload@.take(k as int),
                decreases payload.len() - k,
            {
                frame.push(payload[k]);
                proof {
                    assert(frame@ =~= mid + payload@.take(k + 1));
                }
                k = k + 1;
            }
            proof {
                assert(payload@.take(payload@.len() as int) =~= payload@);
                assert(frame@ =~= be32(spec_encode(msg@).len() as u32) + spec_encode(msg@));
            }
            Ok(frame)
        },
    }
}

} // verus!
