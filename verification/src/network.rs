//! The per-connection dispatch step: frame the read buffer, decode one
//! request, run it, and produce the reply bytes.  The socket loop around it
//! only reads bytes into the buffer, writes the returned bytes, and closes
//! when told to.

use vstd::prelude::*;

use crate::backend::Backend;
use crate::cmd::Command;
use crate::cmd::command_of;
use crate::cmd::eval_command;
use crate::resp::encode::RespEncode;
use crate::resp::frame::RespFrame;
use crate::resp::frame::SimpleError;
use crate::resp::wire::FrameV;
use crate::resp::wire::SpecParse;
use crate::resp::wire::SpecScan;
use crate::resp::wire::encode_frame;
use crate::resp::wire::parse_frame_s;
use crate::resp::wire::scan_frame_s;

verus! {

/// What the connection loop must do after one step.
pub enum StepOutcome {
    /// The buffer holds no complete frame yet: read more bytes.
    NeedMore,
    /// Write these bytes and keep the connection open.
    Respond(Vec<u8>),
    /// Write these bytes and close: the byte stream cannot be re-synced.
    Close(Vec<u8>),
}

/// Converts one decoded request into its reply frame, mutating the store:
/// a well-formed command is executed, anything else earns an in-band error
/// reply and leaves the store untouched.
pub fn handle_request(frame: RespFrame, backend: &mut Backend) -> (r: RespFrame)
    ensures
        match command_of(frame@) {
            Option::Some(c) => ({
                let p = eval_command(c, old(backend)@);
                r@ == p.0 && final(backend)@ == p.1
            }),
            Option::None => r@ is Error && final(backend)@ == old(backend)@,
        },
{
    match Command::try_from(frame) {
        Result::Ok(cmd) => cmd.execute(backend),
        Result::Err(e) => RespFrame::Error(SimpleError(e.message())),
    }
}

/// One step of the connection loop over the read buffer.
///
/// - not enough bytes for a frame: `NeedMore`, everything unchanged;
/// - unrecoverable framing error: `Close` with an error frame's bytes, the
///   store untouched;
/// - one complete frame: it is consumed from the buffer and dispatched;
///   the reply is exactly the encoding of what `eval_command` answers, or
///   of an error frame when the frame is no command.
pub fn conn_step(buf: &mut Vec<u8>, backend: &mut Backend) -> (r: StepOutcome)
    ensures
        match scan_frame_s(old(buf)@) {
            SpecScan::Incomplete => r is NeedMore && final(buf)@ == old(buf)@
                && final(backend)@ == old(backend)@,
            SpecScan::Invalid => r is Close && final(buf)@ == old(buf)@
                && final(backend)@ == old(backend)@,
            SpecScan::Done(_) => match parse_frame_s(old(buf)@) {
                SpecParse::Done(fv, m) => final(buf)@ == old(buf)@.skip(m) && match command_of(
                    fv,
                ) {
                    Option::Some(c) => ({
                        let p = eval_command(c, old(backend)@);
                        r is Respond && r->Respond_0@ == encode_frame(p.0) && final(backend)@
                            == p.1
                    }),
                    Option::None => r is Respond && (exists|msg: Seq<u8>|
                        r->Respond_0@ == encode_frame(FrameV::Error(msg))) && final(backend)@
                        == old(backend)@,
                },
                SpecParse::Incomplete => r is NeedMore && final(buf)@ == old(buf)@
                    && final(backend)@ == old(backend)@,
                SpecParse::Invalid => r is Close && final(buf)@ == old(buf)@ && final(backend)@
                    == old(backend)@,
            },
        },
{
    match RespFrame::expect_length(buf.as_slice()) {
        Result::Err(e) => {
            match e {
                crate::resp::err::RespError::NotCompleted => StepOutcome::NeedMore,
                _ => {
                    let reply = RespFrame::Error(SimpleError(e.message()));
                    StepOutcome::Close(reply.encode())
                },
            }
        },
        Result::Ok(_) => {
            match RespFrame::decode(buf) {
                Result::Ok(frame) => {
                    let ghost fv = frame@;
                    let reply = handle_request(frame, backend);
                    proof {
                        if command_of(fv) is None {
                            assert(reply@ is Error);
                        }
                    }
                    StepOutcome::Respond(reply.encode())
                },
                Result::Err(e) => {
                    match e {
                        crate::resp::err::RespError::NotCompleted => StepOutcome::NeedMore,
                        _ => {
                            let reply = RespFrame::Error(SimpleError(e.message()));
                            StepOutcome::Close(reply.encode())
                        },
                    }
                },
            }
        },
    }
}

} // verus!
