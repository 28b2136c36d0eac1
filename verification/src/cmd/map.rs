//! The plain key commands: GET and SET.

use vstd::prelude::*;

use crate::backend::Backend;
use crate::cmd::CommandError;
use crate::cmd::CommandV;
use crate::cmd::Get;
use crate::cmd::SetCmd;
use crate::cmd::check_utf8;
use crate::cmd::command_of_arr;
use crate::cmd::eval_command;
use crate::cmd::make_verb_get;
use crate::cmd::make_verb_set;
use crate::cmd::extract_args;
use crate::cmd::ok_text;
use crate::cmd::validate_command;
use crate::resp::err::append_slice;
use crate::resp::frame::RespArray;
use crate::resp::frame::RespFrame;
use crate::resp::frame::RespNull;
use crate::resp::frame::SimpleString;
use crate::resp::frame::frames_view;
use crate::resp::frame::lemma_frames_view_index;
use crate::resp::frame::lemma_frames_view_len;
use crate::resp::frame::lemma_view_variant;
use crate::resp::wire::FrameV;

verus! {

/// The `+OK` reply.
pub fn ok_frame() -> (r: RespFrame)
    ensures
        r@ == FrameV::SimpleString(ok_text()),
{
    let mut v: Vec<u8> = Vec::new();
    v.push(79);
    v.push(75);
    proof {
        assert(v@ =~= ok_text());
    }
    RespFrame::SimpleString(SimpleString(v))
}

impl Get {
    /// Builds a GET from a request array; succeeds exactly when the array
    /// denotes a GET command.
    pub fn try_from(value: RespArray) -> (r: Result<Get, CommandError>)
        ensures
            match r {
                Result::Ok(g) => command_of_arr(value@) == Some(CommandV::Get(g.key@)),
                Result::Err(_) => (match command_of_arr(value@) {
                    Option::Some(c) => !(c is Get),
                    Option::None => true,
                }),
            },
    {
        let verb = make_verb_get();
        match validate_command(&value, &verb, 1) {
            Result::Err(e) => {
                return Err(e);
            },
            Result::Ok(()) => {},
        }
        let ghost els = value@->0;
        let mut args = extract_args(value, 1);
        proof {
            lemma_frames_view_len(args@);
            lemma_frames_view_index(args@, 0);
            assert(frames_view(args@)[0] == els[1]);
        }
        let f = args.remove(0);
        proof {
            lemma_view_variant(&f);
        }
        match f {
            RespFrame::BulkString(b) => match b.0 {
                Option::Some(k) => {
                    if check_utf8(&k) {
                        Ok(Get { key: k })
                    } else {
                        let mut m: Vec<u8> = Vec::new();
                        append_slice(&mut m, "Invalid key".as_bytes());
                        Err(CommandError::InvalidArgument(m))
                    }
                },
                Option::None => {
                    let mut m: Vec<u8> = Vec::new();
                    append_slice(&mut m, "Invalid key".as_bytes());
                    Err(CommandError::InvalidArgument(m))
                },
            },
            _ => {
                let mut m: Vec<u8> = Vec::new();
                append_slice(&mut m, "Invalid key".as_bytes());
                Err(CommandError::InvalidArgument(m))
            },
        }
    }

    /// GET: the stored frame, or null on a miss; the store is unchanged.
    pub fn execute(self, backend: &mut Backend) -> (r: RespFrame)
        ensures
            ({
                let p = eval_command(CommandV::Get(self.key@), old(backend)@);
                r@ == p.0 && final(backend)@ == p.1
            }),
    {
        match backend.get(&self.key) {
            Option::Some(v) => v,
            Option::None => RespFrame::Null(RespNull),
        }
    }
}

impl SetCmd {
    /// Builds a SET from a request array; succeeds exactly when the array
    /// denotes a SET command.
    pub fn try_from(value: RespArray) -> (r: Result<SetCmd, CommandError>)
        ensures
            match r {
                Result::Ok(c) => command_of_arr(value@) == Some(
                    CommandV::SetCmd(c.key@, c.value@),
                ),
                Result::Err(_) => (match command_of_arr(value@) {
                    Option::Some(c) => !(c is SetCmd),
                    Option::None => true,
                }),
            },
    {
        let verb = make_verb_set();
        match validate_command(&value, &verb, 2) {
            Result::Err(e) => {
                return Err(e);
            },
            Result::Ok(()) => {},
        }
        let ghost els = value@->0;
        let mut args = extract_args(value, 1);
        proof {
            lemma_frames_view_len(args@);
            lemma_frames_view_index(args@, 0);
            lemma_frames_view_index(args@, 1);
            assert(frames_view(args@)[0] == els[1]);
            assert(frames_view(args@)[1] == els[2]);
        }
        let f1 = args.remove(0);
        let f2 = args.remove(0);
        proof {
            lemma_view_variant(&f1);
        }
        match f1 {
            RespFrame::BulkString(b) => match b.0 {
                Option::Some(k) => {
                    if check_utf8(&k) {
                        Ok(SetCmd { key: k, value: f2 })
                    } else {
                        let mut m: Vec<u8> = Vec::new();
                        append_slice(&mut m, "Invalid key or value".as_bytes());
                        Err(CommandError::InvalidArgument(m))
                    }
                },
                Option::None => {
                    let mut m: Vec<u8> = Vec::new();
                    append_slice(&mut m, "Invalid key or value".as_bytes());
                    Err(CommandError::InvalidArgument(m))
                },
            },
            _ => {
                let mut m: Vec<u8> = Vec::new();
                append_slice(&mut m, "Invalid key or value".as_bytes());
                Err(CommandError::InvalidArgument(m))
            },
        }
    }

    /// SET: stores the value and replies `+OK`.
    pub fn execute(self, backend: &mut Backend) -> (r: RespFrame)
        ensures
            ({
                let p = eval_command(CommandV::SetCmd(self.key@, self.value@), old(backend)@);
                r@ == p.0 && final(backend)@ == p.1
            }),
    {
        backend.set(self.key, self.value);
        ok_frame()
    }
}

} // verus!
