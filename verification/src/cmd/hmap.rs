//! The hash commands: HGET, HSET, HGETALL, HMGET.

use vstd::prelude::*;

use crate::backend::Backend;
use crate::backend::vecs_view;
use crate::cmd::CommandError;
use crate::cmd::CommandV;
use crate::cmd::HGet;
use crate::cmd::HGetAll;
use crate::cmd::HMGet;
use crate::cmd::HSet;
use crate::cmd::check_utf8;
use crate::cmd::command_of_arr;
use crate::cmd::eval_command;
use crate::cmd::extract_args;
use crate::cmd::make_verb_hget;
use crate::cmd::make_verb_hgetall;
use crate::cmd::make_verb_hmget;
use crate::cmd::make_verb_hset;
use crate::cmd::map::ok_frame;
use crate::cmd::text_arg;
use crate::cmd::text_args;
use crate::cmd::text_args_of;
use crate::cmd::validate_command;
use crate::resp::err::append_slice;
use crate::resp::frame::RespArray;
use crate::resp::frame::RespFrame;
use crate::resp::frame::RespMap;
use crate::resp::frame::RespNull;
use crate::resp::frame::clone_bytes;
use crate::resp::frame::frames_view;
use crate::resp::frame::lemma_frames_view_index;
use crate::resp::frame::lemma_frames_view_len;
use crate::resp::frame::lemma_view_variant;

verus! {

/// An "Invalid key or field" argument error.
fn bad_field_err() -> (r: CommandError)
{
    let mut m: Vec<u8> = Vec::new();
    append_slice(&mut m, "Invalid key or field".as_bytes());
    CommandError::InvalidArgument(m)
}

impl HGet {
    /// Builds an HGET from a request array; succeeds exactly when the
    /// array denotes an HGET command.
    pub fn try_from(value: RespArray) -> (r: Result<HGet, CommandError>)
        ensures
            match r {
                Result::Ok(c) => command_of_arr(value@) == Some(
                    CommandV::HGet(c.key@, c.field@),
                ),
                Result::Err(_) => (match command_of_arr(value@) {
                    Option::Some(c) => !(c is HGet),
                    Option::None => true,
                }),
            },
    {
        let verb = make_verb_hget();
        match validate_command(&value, &verb, 2) {
            Result::Err(e) => {
                return Err(e);
            },
            Result::Ok(()) => {},
        }
        let ghost els = value@->0;
        let mut args = extract_args(value, 1);
        proof {
            lemma_frames_view_len(args@);
            lemma_frames_view_index(args@, 0);
            lemma_frames_view_index(args@, 1);
            assert(frames_view(args@)[0] == els[1]);
            assert(frames_view(args@)[1] == els[2]);
        }
        let f1 = args.remove(0);
        let f2 = args.remove(0);
        proof {
            lemma_view_variant(&f1);
            lemma_view_variant(&f2);
        }
        match (f1, f2) {
            (RespFrame::BulkString(b1), RespFrame::BulkString(b2)) => match (b1.0, b2.0) {
                (Option::Some(k), Option::Some(f)) => {
                    if check_utf8(&k) && check_utf8(&f) {
                        Ok(HGet { key: k, field: f })
                    } else {
                        Err(bad_field_err())
                    }
                },
                _ => Err(bad_field_err()),
            },
            _ => Err(bad_field_err()),
        }
    }

    /// HGET: the stored field, or null when the hash or the field is
    /// absent; the store is unchanged.
    pub fn execute(self, backend: &mut Backend) -> (r: RespFrame)
        ensures
            ({
                let p = eval_command(CommandV::HGet(self.key@, self.field@), old(backend)@);
                r@ == p.0 && final(backend)@ == p.1
            }),
    {
        match backend.hget(&self.key, &self.field) {
            Option::Some(v) => v,
            Option::None => RespFrame::Null(RespNull),
        }
    }
}

impl HSet {
    /// Builds an HSET from a request array; succeeds exactly when the
    /// array denotes an HSET command.
    pub fn try_from(value: RespArray) -> (r: Result<HSet, CommandError>)
        ensures
            match r {
                Result::Ok(c) => command_of_arr(value@) == Some(
                    CommandV::HSet(c.key@, c.field@, c.value@),
                ),
                Result::Err(_) => (match command_of_arr(value@) {
                    Option::Some(c) => !(c is HSet),
                    Option::None => true,
                }),
            },
    {
        let verb = make_verb_hset();
        match validate_command(&value, &verb, 3) {
            Result::Err(e) => {
                return Err(e);
            },
            Result::Ok(()) => {},
        }
        let ghost els = value@->0;
        let mut args = extract_args(value, 1);
        proof {
            lemma_frames_view_len(args@);
            lemma_frames_view_index(args@, 0);
            lemma_frames_view_index(args@, 1);
            lemma_frames_view_index(args@, 2);
            assert(frames_view(args@)[0] == els[1]);
            assert(frames_view(args@)[1] == els[2]);
            assert(frames_view(args@)[2] == els[3]);
        }
        let f1 = args.remove(0);
        let f2 = args.remove(0);
        let f3 = args.remove(0);
        proof {
            lemma_view_variant(&f1);
            lemma_view_variant(&f2);
        }
        match (f1, f2) {
            (RespFrame::BulkString(b1), RespFrame::BulkString(b2)) => match (b1.0, b2.0) {
                (Option::Some(k), Option::Some(f)) => {
                    if check_utf8(&k) && check_utf8(&f) {
                        Ok(HSet { key: k, field: f, value: f3 })
                    } else {
                        Err(bad_field_err())
                    }
                },
                _ => Err(bad_field_err()),
            },
            _ => Err(bad_field_err()),
        }
    }

    /// HSET: writes the field and replies `+OK`.
    pub fn execute(self, backend: &mut Backend) -> (r: RespFrame)
        ensures
            ({
                let p = eval_command(
                    CommandV::HSet(self.key@, self.field@, self.value@),
                    old(backend)@,
                );
                r@ == p.0 && final(backend)@ == p.1
            }),
    {
        backend.hset(self.key, self.field, self.value);
        ok_frame()
    }
}

impl HGetAll {
    /// Builds an HGETALL from a request array; succeeds exactly when the
    /// array denotes an HGETALL command.
    pub fn try_from(value: RespArray) -> (r: Result<HGetAll, CommandError>)
        ensures
            match r {
                Result::Ok(c) => command_of_arr(value@) == Some(CommandV::HGetAll(c.key@)),
                Result::Err(_) => (match command_of_arr(value@) {
                    Option::Some(c) => !(c is HGetAll),
                    Option::None => true,
                }),
            },
    {
        let verb = make_verb_hgetall();
        match validate_command(&value, &verb, 1) {
            Result::Err(e) => {
                return Err(e);
            },
            Result::Ok(()) => {},
        }
        let ghost els = value@->0;
        let mut args = extract_args(value, 1);
        proof {
            lemma_frames_view_len(args@);
            lemma_frames_view_index(args@, 0);
            assert(frames_view(args@)[0] == els[1]);
        }
        let f = args.remove(0);
        proof {
            lemma_view_variant(&f);
        }
        match f {
            RespFrame::BulkString(b) => match b.0 {
                Option::Some(k) => {
                    if check_utf8(&k) {
                        proof {
                            // the shorter verbs cannot equal this one
                            assert(crate::cmd::verb_hgetall().len() == 7);
                            assert(crate::cmd::verb_get().len() == 3);
                            assert(crate::cmd::verb_set().len() == 3);
                            assert(crate::cmd::verb_hget().len() == 4);
                            assert(crate::cmd::verb_hset().len() == 4);
                            assert(text_arg(els[1]) is Some);
                            assert(command_of_arr(value@) == Some(CommandV::HGetAll(k@)));
                        }
                        Ok(HGetAll { key: k })
                    } else {
                        let mut m: Vec<u8> = Vec::new();
                        append_slice(&mut m, "Invalid key".as_bytes());
                        Err(CommandError::InvalidArgument(m))
                    }
                },
                Option::None => {
                    let mut m: Vec<u8> = Vec::new();
                    append_slice(&mut m, "Invalid key".as_bytes());
                    Err(CommandError::InvalidArgument(m))
                },
            },
            _ => {
                let mut m: Vec<u8> = Vec::new();
                append_slice(&mut m, "Invalid key".as_bytes());
                Err(CommandError::InvalidArgument(m))
            },
        }
    }

    /// HGETALL: a snapshot of the hash as a map reply, empty on a miss;
    /// the store is unchanged.
    pub fn execute(self, backend: &mut Backend) -> (r: RespFrame)
        ensures
            ({
                let p = eval_command(CommandV::HGetAll(self.key@), old(backend)@);
                r@ == p.0 && final(backend)@ == p.1
            }),
    {
        match backend.hgetall(&self.key) {
            Option::Some(m) => RespFrame::Dict(m),
            Option::None => RespFrame::Dict(RespMap::new()),
        }
    }
}

impl HMGet {
    /// Builds an HMGET from a request array; succeeds exactly when the
    /// array denotes an HMGET command (at least one field, every argument
    /// a UTF-8 bulk string).
    pub fn try_from(value: RespArray) -> (r: Result<HMGet, CommandError>)
        ensures
            match r {
                Result::Ok(c) => command_of_arr(value@) == Some(
                    CommandV::HMGet(c.key@, vecs_view(c.fields@)),
                ),
                Result::Err(_) => (match command_of_arr(value@) {
                    Option::Some(c) => !(c is HMGet),
                    Option::None => true,
                }),
            },
    {
        let arity: usize = match &value.0 {
            Option::Some(v) => v.len(),
            Option::None => 0,
        };
        proof {
            match &value.0 {
                Option::Some(v) => {
                    lemma_frames_view_len(v@);
                },
                Option::None => {},
            }
        }
        if arity < 3 {
            let mut m: Vec<u8> = Vec::new();
            append_slice(&mut m, "wrong number of arguments for 'hmget' command".as_bytes());
            return Err(CommandError::InvalidArgument(m));
        }
        let verb = make_verb_hmget();
        match validate_command(&value, &verb, arity - 1) {
            Result::Err(e) => {
                return Err(e);
            },
            Result::Ok(()) => {},
        }
        let ghost els = value@->0;
        let args = extract_args(value, 1);
        proof {
            lemma_frames_view_len(args@);
            lemma_frames_view_index(args@, 0);
            assert(frames_view(args@)[0] == els[1]);
        }
        let key: Vec<u8> = match &args[0] {
            RespFrame::BulkString(b) => match &b.0 {
                Option::Some(k) => {
                    if check_utf8(k) {
                        clone_bytes(k)
                    } else {
                        proof {
                            assert(text_arg(els[1]) is None);
                            assert(els.skip(1)[0] == els[1]);
                        }
                        return Err(bad_field_err());
                    }
                },
                Option::None => {
                    proof {
                        lemma_view_variant(&args@[0]);
                        assert(text_arg(els[1]) is None);
                        assert(els.skip(1)[0] == els[1]);
                    }
                    return Err(bad_field_err());
                },
            },
            _ => {
                proof {
                    lemma_view_variant(&args@[0]);
                    assert(text_arg(els[1]) is None);
                    assert(els.skip(1)[0] == els[1]);
                }
                return Err(bad_field_err());
            },
        };
        let n = args.len();
        let mut fields: Vec<Vec<u8>> = Vec::new();
        let mut i: usize = 1;
        while i < n
            invariant
                1 <= i <= n == args@.len(),
                frames_view(args@).len() == n,
                frames_view(args@) == els.skip(1),
                els.len() == n + 1,
                els.len() >= 3,
                value@ == Option::Some(els),
                crate::cmd::bulk_arg(els[0]) is Some,
                crate::cmd::ascii_lower(crate::cmd::bulk_arg(els[0]).unwrap())
                    == crate::cmd::verb_hmget(),
                fields@.len() == i - 1,
                forall|j: int| 1 <= j < i ==> text_arg(#[trigger] frames_view(args@)[j]) is Some,
                forall|j: int| 0 <= j < i - 1 ==> fields@[j]@ == text_arg(
                    #[trigger] frames_view(args@)[j + 1],
                ).unwrap(),
            decreases n - i,
        {
            proof {
                lemma_frames_view_index(args@, i as int);
                lemma_view_variant(&args@[i as int]);
            }
            match &args[i] {
                RespFrame::BulkString(b) => match &b.0 {
                    Option::Some(p) => {
                        if check_utf8(p) {
                            fields.push(clone_bytes(p));
                        } else {
                            proof {
                                assert(els.skip(1)[i as int] == frames_view(args@)[i as int]);
                            }
                            return Err(bad_field_err());
                        }
                    },
                    Option::None => {
                        proof {
                            assert(els.skip(1)[i as int] == frames_view(args@)[i as int]);
                        }
                        return Err(bad_field_err());
                    },
                },
                _ => {
                    proof {
                        assert(els.skip(1)[i as int] == frames_view(args@)[i as int]);
                    }
                    return Err(bad_field_err());
                },
            }
            i = i + 1;
        }
        proof {
            assert(text_args(els.skip(1))) by {
                assert forall|j: int| 0 <= j < els.skip(1).len() implies text_arg(
                    #[trigger] els.skip(1)[j],
                ) is Some by {
                    assert(els.skip(1)[j] == frames_view(args@)[j]);
                    if j == 0 {
                        assert(els.skip(1)[0] == els[1]);
                    }
                }
            }
            assert(vecs_view(fields@) =~= text_args_of(els.skip(2))) by {
                assert forall|j: int| 0 <= j < fields@.len() implies vecs_view(fields@)[j]
                    == text_args_of(els.skip(2))[j] by {
                    assert(els.skip(2)[j] == frames_view(args@)[j + 1]);
                }
            }
        }
        Ok(HMGet { key, fields })
    }

    /// HMGET: the requested fields present in the hash, as a map reply;
    /// the store is unchanged.
    pub fn execute(self, backend: &mut Backend) -> (r: RespFrame)
        ensures
            ({
                let p = eval_command(
                    CommandV::HMGet(self.key@, vecs_view(self.fields@)),
                    old(backend)@,
                );
                r@ == p.0 && final(backend)@ == p.1
            }),
    {
        RespFrame::Dict(backend.hmget(&self.key, &self.fields))
    }
}

} // verus!
