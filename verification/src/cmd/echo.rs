//! The ECHO command.

use vstd::prelude::*;

use crate::backend::Backend;
use crate::cmd::CommandError;
use crate::cmd::CommandV;
use crate::cmd::Echo;
use crate::cmd::check_utf8;
use crate::cmd::command_of_arr;
use crate::cmd::eval_command;
use crate::cmd::extract_args;
use crate::cmd::make_verb_echo;
use crate::cmd::validate_command;
use crate::resp::err::append_slice;
use crate::resp::frame::RespArray;
use crate::resp::frame::RespFrame;
use crate::resp::frame::SimpleString;
use crate::resp::frame::frames_view;
use crate::resp::frame::lemma_frames_view_index;
use crate::resp::frame::lemma_frames_view_len;
use crate::resp::frame::lemma_view_variant;

verus! {

impl Echo {
    /// Builds an ECHO from a request array; succeeds exactly when the
    /// array denotes an ECHO command.
    pub fn try_from(value: RespArray) -> (r: Result<Echo, CommandError>)
        ensures
            match r {
                Result::Ok(c) => command_of_arr(value@) == Some(CommandV::Echo(c.message@)),
                Result::Err(_) => (match command_of_arr(value@) {
                    Option::Some(c) => !(c is Echo),
                    Option::None => true,
                }),
            },
    {
        let verb = make_verb_echo();
        match validate_command(&value, &verb, 1) {
            Result::Err(e) => {
                return Err(e);
            },
            Result::Ok(()) => {},
        }
        let ghost els = value@->0;
        let mut args = extract_args(value, 1);
        proof {
            lemma_frames_view_len(args@);
            lemma_frames_view_index(args@, 0);
            assert(frames_view(args@)[0] == els[1]);
        }
        let f = args.remove(0);
        proof {
            lemma_view_variant(&f);
        }
        match f {
            RespFrame::BulkString(b) => match b.0 {
                Option::Some(msg) => {
                    if check_utf8(&msg) {
                        Ok(Echo { message: msg })
                    } else {
                        Err(CommandError::Utf8Error)
                    }
                },
                Option::None => {
                    let mut m: Vec<u8> = Vec::new();
                    append_slice(
                        &mut m,
                        "Echo command requires a single bulk string argument".as_bytes(),
                    );
                    Err(CommandError::InvalidArgument(m))
                },
            },
            _ => {
                let mut m: Vec<u8> = Vec::new();
                append_slice(
                    &mut m,
                    "Echo command requires a single bulk string argument".as_bytes(),
                );
                Err(CommandError::InvalidArgument(m))
            },
        }
    }

    /// ECHO: the message back as a simple string; the store is unchanged.
    pub fn execute(self, backend: &mut Backend) -> (r: RespFrame)
        ensures
            ({
                let p = eval_command(CommandV::Echo(self.message@), old(backend)@);
                r@ == p.0 && final(backend)@ == p.1
            }),
    {
        RespFrame::SimpleString(SimpleString(self.message))
    }
}

} // verus!
