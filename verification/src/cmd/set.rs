//! The set commands: SADD and SISMEMBER.

use vstd::prelude::*;

use crate::backend::Backend;
use crate::backend::vecs_view;
use crate::cmd::CommandError;
use crate::cmd::CommandV;
use crate::cmd::SAdd;
use crate::cmd::SIsMember;
use crate::cmd::bulk_arg;
use crate::cmd::bulk_args;
use crate::cmd::bulk_args_of;
use crate::cmd::check_utf8;
use crate::cmd::command_of_arr;
use crate::cmd::eval_command;
use crate::cmd::extract_args;
use crate::cmd::make_verb_sadd;
use crate::cmd::make_verb_sismember;
use crate::cmd::text_arg;
use crate::cmd::validate_command;
use crate::resp::err::append_slice;
use crate::resp::frame::RespArray;
use crate::resp::frame::RespFrame;
use crate::resp::frame::clone_bytes;
use crate::resp::frame::frames_view;
use crate::resp::frame::lemma_frames_view_index;
use crate::resp::frame::lemma_frames_view_len;
use crate::resp::frame::lemma_view_variant;

verus! {

/// An "Invalid arguments for sadd" argument error.
fn bad_sadd_err() -> (r: CommandError)
{
    let mut m: Vec<u8> = Vec::new();
    append_slice(&mut m, "Invalid arguments for sadd".as_bytes());
    CommandError::InvalidArgument(m)
}

impl SAdd {
    /// Builds an SADD from a request array; succeeds exactly when the
    /// array denotes an SADD command (a UTF-8 key, then any number of
    /// non-null bulk-string members).
    pub fn try_from(value: RespArray) -> (r: Result<SAdd, CommandError>)
        ensures
            match r {
                Result::Ok(c) => command_of_arr(value@) == Some(
                    CommandV::SAdd(c.key@, vecs_view(c.members@)),
                ) && c.members@.len() <= 9223372036854775807,
                Result::Err(_) => (match command_of_arr(value@) {
                    Option::Some(c) => !(c is SAdd),
                    Option::None => true,
                }),
            },
    {
        let arity: usize = match &value.0 {
            Option::Some(v) => v.len(),
            Option::None => 0,
        };
        proof {
            match &value.0 {
                Option::Some(v) => {
                    lemma_frames_view_len(v@);
                },
                Option::None => {},
            }
        }
        if arity < 1 {
            return Err(bad_sadd_err());
        }
        let verb = make_verb_sadd();
        match validate_command(&value, &verb, arity - 1) {
            Result::Err(e) => {
                return Err(e);
            },
            Result::Ok(()) => {},
        }
        if arity < 2 {
            return Err(bad_sadd_err());
        }
        if (arity as u64) > 9223372036854775807u64 {
            return Err(bad_sadd_err());
        }
        let ghost els = value@->0;
        let args = extract_args(value, 1);
        proof {
            lemma_frames_view_len(args@);
            lemma_frames_view_index(args@, 0);
            assert(frames_view(args@)[0] == els[1]);
        }
        let key: Vec<u8> = match &args[0] {
            RespFrame::BulkString(b) => match &b.0 {
                Option::Some(k) => {
                    if check_utf8(k) {
                        clone_bytes(k)
                    } else {
                        proof {
                            assert(text_arg(els[1]) is None);
                        }
                        return Err(bad_sadd_err());
                    }
                },
                Option::None => {
                    proof {
                        lemma_view_variant(&args@[0]);
                        assert(text_arg(els[1]) is None);
                    }
                    return Err(bad_sadd_err());
                },
            },
            _ => {
                proof {
                    lemma_view_variant(&args@[0]);
                    assert(text_arg(els[1]) is None);
                }
                return Err(bad_sadd_err());
            },
        };
        let n = args.len();
        let mut members: Vec<Vec<u8>> = Vec::new();
        let mut i: usize = 1;
        while i < n
            invariant
                1 <= i <= n == args@.len(),
                frames_view(args@).len() == n,
                frames_view(args@) == els.skip(1),
                els.len() == n + 1,
                els.len() >= 2,
                els.len() <= 9223372036854775807,
                value@ == Option::Some(els),
                bulk_arg(els[0]) is Some,
                crate::cmd::ascii_lower(bulk_arg(els[0]).unwrap()) == crate::cmd::verb_sadd(),
                members@.len() == i - 1,
                forall|j: int| 1 <= j < i ==> bulk_arg(#[trigger] frames_view(args@)[j]) is Some,
                forall|j: int| 0 <= j < i - 1 ==> members@[j]@ == bulk_arg(
                    #[trigger] frames_view(args@)[j + 1],
                ).unwrap(),
            decreases n - i,
        {
            proof {
                lemma_frames_view_index(args@, i as int);
                lemma_view_variant(&args@[i as int]);
            }
            match &args[i] {
                RespFrame::BulkString(b) => match &b.0 {
                    Option::Some(p) => {
                        members.push(clone_bytes(p));
                    },
                    Option::None => {
                        proof {
                            assert(els.skip(2)[i - 1] == frames_view(args@)[i as int]);
                        }
                        return Err(bad_sadd_err());
                    },
                },
                _ => {
                    proof {
                        assert(els.skip(2)[i - 1] == frames_view(args@)[i as int]);
                    }
                    return Err(bad_sadd_err());
                },
            }
            i = i + 1;
        }
        proof {
            assert(bulk_args(els.skip(2))) by {
                assert forall|j: int| 0 <= j < els.skip(2).len() implies bulk_arg(
                    #[trigger] els.skip(2)[j],
                ) is Some by {
                    assert(els.skip(2)[j] == frames_view(args@)[j + 1]);
                }
            }
            assert(vecs_view(members@) =~= bulk_args_of(els.skip(2))) by {
                assert forall|j: int| 0 <= j < members@.len() implies vecs_view(members@)[j]
                    == bulk_args_of(els.skip(2))[j] by {
                    assert(els.skip(2)[j] == frames_view(args@)[j + 1]);
                }
            }
        }
        Ok(SAdd { key, members })
    }

    /// SADD: adds the members and replies with the count of members that
    /// were not yet present.
    pub fn execute(self, backend: &mut Backend) -> (r: RespFrame)
        requires
            self.members@.len() <= 9223372036854775807,
        ensures
            ({
                let p = eval_command(
                    CommandV::SAdd(self.key@, vecs_view(self.members@)),
                    old(backend)@,
                );
                r@ == p.0 && final(backend)@ == p.1
            }),
    {
        let count = backend.sadd(self.key, self.members);
        RespFrame::Integer(count)
    }
}

impl SIsMember {
    /// Builds an SISMEMBER from a request array; succeeds exactly when the
    /// array denotes an SISMEMBER command.
    pub fn try_from(value: RespArray) -> (r: Result<SIsMember, CommandError>)
        ensures
            match r {
                Result::Ok(c) => command_of_arr(value@) == Some(
                    CommandV::SIsMember(c.key@, c.member@),
                ),
                Result::Err(_) => (match command_of_arr(value@) {
                    Option::Some(c) => !(c is SIsMember),
                    Option::None => true,
                }),
            },
    {
        let verb = make_verb_sismember();
        match validate_command(&value, &verb, 2) {
            Result::Err(e) => {
                return Err(e);
            },
            Result::Ok(()) => {},
        }
        let ghost els = value@->0;
        let mut args = extract_args(value, 1);
        proof {
            lemma_frames_view_len(args@);
            lemma_frames_view_index(args@, 0);
            lemma_frames_view_index(args@, 1);
            assert(frames_view(args@)[0] == els[1]);
            assert(frames_view(args@)[1] == els[2]);
        }
        let f1 = args.remove(0);
        let f2 = args.remove(0);
        proof {
            lemma_view_variant(&f1);
            lemma_view_variant(&f2);
        }
        match (f1, f2) {
            (RespFrame::BulkString(b1), RespFrame::BulkString(b2)) => match (b1.0, b2.0) {
                (Option::Some(k), Option::Some(m)) => {
                    if check_utf8(&k) {
                        Ok(SIsMember { key: k, member: m })
                    } else {
                        let mut msg: Vec<u8> = Vec::new();
                        append_slice(&mut msg, "Invalid arguments for sismember".as_bytes());
                        Err(CommandError::InvalidArgument(msg))
                    }
                },
                _ => {
                    let mut msg: Vec<u8> = Vec::new();
                    append_slice(&mut msg, "Invalid arguments for sismember".as_bytes());
                    Err(CommandError::InvalidArgument(msg))
                },
            },
            _ => {
                let mut msg: Vec<u8> = Vec::new();
                append_slice(&mut msg, "Invalid arguments for sismember".as_bytes());
                Err(CommandError::InvalidArgument(msg))
            },
        }
    }

    /// SISMEMBER: 1 when the member is in the set, else 0.
    pub fn execute(self, backend: &mut Backend) -> (r: RespFrame)
        ensures
            ({
                let p = eval_command(
                    CommandV::SIsMember(self.key@, self.member@),
                    old(backend)@,
                );
                r@ == p.0 && final(backend)@ == p.1
            }),
    {
        let v = backend.is_member(self.key, self.member);
        RespFrame::Integer(v)
    }
}

} // verus!
