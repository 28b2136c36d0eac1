//! The command model: a typed request built from an array frame by
//! validation, and its evaluation against the store.
//!
//! `command_of` says exactly which array frames form which command;
//! `eval_command` says exactly which reply and which new store state every
//! command produces.  The executable conversions and executors are proved
//! against these two functions.

pub mod echo;
pub mod hmap;
pub mod map;
pub mod set;

use vstd::prelude::*;

use crate::backend::Backend;
use crate::backend::StoreV;
use crate::backend::collect_fields;
use crate::backend::hash_lookup;
use crate::backend::hash_put;
use crate::backend::members_add;
use crate::backend::members_added;
use crate::backend::set_lookup;
use crate::backend::set_put;
use crate::resp::err::RespError;
use crate::resp::err::append_slice;
use crate::resp::err::append_vec;
use crate::resp::frame::RespArray;
use crate::resp::frame::RespFrame;
use crate::resp::wire::FrameV;
use crate::resp::wire::map_lookup;
use crate::resp::wire::map_put;

verus! {

// ---------------------------------------------------------------------------
// errors
// ---------------------------------------------------------------------------

/// Why an array frame failed to become a command.  Either way the reply is
/// a simple error and the connection stays open.
#[derive(Debug, PartialEq, Eq)]
pub enum CommandError {
    /// Not an array, no verb, or an unknown verb.
    InvalidCommand(Vec<u8>),
    /// Known verb with wrong arity or badly typed arguments.
    InvalidArgument(Vec<u8>),
    /// A key, field or message that is not UTF-8.
    Utf8Error,
    /// A decoding error carried through.
    RespError(RespError),
}

impl CommandError {
    /// Human-readable description, as protocol-error text.
    pub fn message(&self) -> (r: Vec<u8>)
    {
        let mut m: Vec<u8> = Vec::new();
        match self {
            CommandError::InvalidCommand(d) => {
                append_slice(&mut m, "Invalid command: ".as_bytes());
                append_vec(&mut m, d);
            },
            CommandError::InvalidArgument(d) => {
                append_slice(&mut m, "Invalid argument: ".as_bytes());
                append_vec(&mut m, d);
            },
            CommandError::Utf8Error => {
                append_slice(&mut m, "Utf8 error: invalid utf-8 sequence".as_bytes());
            },
            CommandError::RespError(e) => {
                let inner = e.message();
                append_vec(&mut m, &inner);
            },
        }
        m
    }
}

// ---------------------------------------------------------------------------
// text helpers
// ---------------------------------------------------------------------------

/// ASCII-lowercased text.
pub open spec fn ascii_lower(s: Seq<u8>) -> Seq<u8> {
    s.map_values(
        |b: u8|
            if 65 <= b <= 90 {
                (b + 32) as u8
            } else {
                b
            },
    )
}

/// ASCII-lowercases a copy of `v`.
pub fn to_ascii_lower(v: &Vec<u8>) -> (r: Vec<u8>)
    ensures
        r@ == ascii_lower(v@),
{
    let n = v.len();
    let mut r: Vec<u8> = Vec::new();
    let mut i: usize = 0;
    while i < n
        invariant
            i <= n == v@.len(),
            r@ == ascii_lower(v@).take(i as int),
        decreases n - i,
    {
        let b = v[i];
        if 65 <= b && b <= 90 {
            r.push(b + 32);
        } else {
            r.push(b);
        }
        proof {
            assert(r@ =~= ascii_lower(v@).take(i + 1));
        }
        i = i + 1;
    }
    proof {
        assert(ascii_lower(v@).take(n as int) =~= ascii_lower(v@));
    }
    r
}

pub open spec fn is_cont(b: u8) -> bool {
    128 <= b <= 191
}

/// Well-formed UTF-8, by the shortest-form byte ranges.
pub open spec fn is_utf8(s: Seq<u8>) -> bool
    decreases s.len(),
{
    if s.len() == 0 {
        true
    } else {
        let b0 = s[0];
        if b0 <= 127 {
            is_utf8(s.skip(1))
        } else if 194 <= b0 && b0 <= 223 {
            s.len() >= 2 && is_cont(s[1]) && is_utf8(s.skip(2))
        } else if b0 == 224 {
            s.len() >= 3 && 160 <= s[1] <= 191 && is_cont(s[2]) && is_utf8(s.skip(3))
        } else if (225 <= b0 && b0 <= 236) || b0 == 238 || b0 == 239 {
            s.len() >= 3 && is_cont(s[1]) && is_cont(s[2]) && is_utf8(s.skip(3))
        } else if b0 == 237 {
            s.len() >= 3 && 128 <= s[1] <= 159 && is_cont(s[2]) && is_utf8(s.skip(3))
        } else if b0 == 240 {
            s.len() >= 4 && 144 <= s[1] <= 191 && is_cont(s[2]) && is_cont(s[3]) && is_utf8(
                s.skip(4),
            )
        } else if 241 <= b0 && b0 <= 243 {
            s.len() >= 4 && is_cont(s[1]) && is_cont(s[2]) && is_cont(s[3]) && is_utf8(s.skip(4))
        } else if b0 == 244 {
            s.len() >= 4 && 128 <= s[1] <= 143 && is_cont(s[2]) && is_cont(s[3]) && is_utf8(
                s.skip(4),
            )
        } else {
            false
        }
    }
}

/// Decides `is_utf8`.
pub fn check_utf8(v: &Vec<u8>) -> (r: bool)
    ensures
        r == is_utf8(v@),
{
    let n = v.len();
    let mut i: usize = 0;
    proof {
        assert(v@.skip(0) =~= v@);
    }
    while i < n
        invariant
            i <= n == v@.len(),
            is_utf8(v@) == is_utf8(v@.skip(i as int)),
        decreases n - i,
    {
        let ghost cur = v@.skip(i as int);
        proof {
            assert(cur[0] == v@[i as int]);
            assert(cur.len() == n - i);
            if i + 1 <= n {
                assert(cur.skip(1) =~= v@.skip(i + 1));
            }
            if i + 2 <= n {
                assert(cur.skip(2) =~= v@.skip(i + 2));
            }
            if i + 3 <= n {
                assert(cur.skip(3) =~= v@.skip(i + 3));
            }
            if i + 4 <= n {
                assert(cur.skip(4) =~= v@.skip(i + 4));
            }
            if 1 < cur.len() {
                assert(cur[1] == v@[i + 1]);
            }
            if 2 < cur.len() {
                assert(cur[2] == v@[i + 2]);
            }
            if 3 < cur.len() {
                assert(cur[3] == v@[i + 3]);
            }
        }
        let b0 = v[i];
        if b0 <= 127 {
            i = i + 1;
        } else if 194 <= b0 && b0 <= 223 {
            if n - i < 2 || !(128 <= v[i + 1] && v[i + 1] <= 191) {
                return false;
            }
            i = i + 2;
        } else if b0 == 224 {
            if n - i < 3 || !(160 <= v[i + 1] && v[i + 1] <= 191) || !(128 <= v[i + 2] && v[i + 2]
                <= 191) {
                return false;
            }
            i = i + 3;
        } else if (225 <= b0 && b0 <= 236) || b0 == 238 || b0 == 239 {
            if n - i < 3 || !(128 <= v[i + 1] && v[i + 1] <= 191) || !(128 <= v[i + 2] && v[i + 2]
                <= 191) {
                return false;
            }
            i = i + 3;
        } else if b0 == 237 {
            if n - i < 3 || !(128 <= v[i + 1] && v[i + 1] <= 159) || !(128 <= v[i + 2] && v[i + 2]
                <= 191) {
                return false;
            }
            i = i + 3;
        } else if b0 == 240 {
            if n - i < 4 || !(144 <= v[i + 1] && v[i + 1] <= 191) || !(128 <= v[i + 2] && v[i + 2]
                <= 191) || !(128 <= v[i + 3] && v[i + 3] <= 191) {
                return false;
            }
            i = i + 4;
        } else if 241 <= b0 && b0 <= 243 {
            if n - i < 4 || !(128 <= v[i + 1] && v[i + 1] <= 191) || !(128 <= v[i + 2] && v[i + 2]
                <= 191) || !(128 <= v[i + 3] && v[i + 3] <= 191) {
                return false;
            }
            i = i + 4;
        } else if b0 == 244 {
            if n - i < 4 || !(128 <= v[i + 1] && v[i + 1] <= 143) || !(128 <= v[i + 2] && v[i + 2]
                <= 191) || !(128 <= v[i + 3] && v[i + 3] <= 191) {
                return false;
            }
            i = i + 4;
        } else {
            return false;
        }
    }
    proof {
        assert(v@.skip(n as int).len() == 0);
    }
    true
}

// ---------------------------------------------------------------------------
// the command model
// ---------------------------------------------------------------------------

pub open spec fn verb_get() -> Seq<u8> {
    seq![103u8, 101u8, 116u8]
}

pub open spec fn verb_set() -> Seq<u8> {
    seq![115u8, 101u8, 116u8]
}

pub open spec fn verb_hget() -> Seq<u8> {
    seq![104u8, 103u8, 101u8, 116u8]
}

pub open spec fn verb_hset() -> Seq<u8> {
    seq![104u8, 115u8, 101u8, 116u8]
}

pub open spec fn verb_hgetall() -> Seq<u8> {
    seq![104u8, 103u8, 101u8, 116u8, 97u8, 108u8, 108u8]
}

pub open spec fn verb_hmget() -> Seq<u8> {
    seq![104u8, 109u8, 103u8, 101u8, 116u8]
}

pub open spec fn verb_echo() -> Seq<u8> {
    seq![101u8, 99u8, 104u8, 111u8]
}

pub open spec fn verb_sadd() -> Seq<u8> {
    seq![115u8, 97u8, 100u8, 100u8]
}

pub open spec fn verb_sismember() -> Seq<u8> {
    seq![115u8, 105u8, 115u8, 109u8, 101u8, 109u8, 98u8, 101u8, 114u8]
}

/// Model value of a parsed command.
pub enum CommandV {
    Get(Seq<u8>),
    SetCmd(Seq<u8>, FrameV),
    HGet(Seq<u8>, Seq<u8>),
    HSet(Seq<u8>, Seq<u8>, FrameV),
    HGetAll(Seq<u8>),
    HMGet(Seq<u8>, Seq<Seq<u8>>),
    Echo(Seq<u8>),
    SAdd(Seq<u8>, Seq<Seq<u8>>),
    SIsMember(Seq<u8>, Seq<u8>),
}

/// A non-null bulk string whose payload is UTF-8: the shape every key,
/// field and message argument must have.
pub open spec fn text_arg(f: FrameV) -> Option<Seq<u8>> {
    match f {
        FrameV::BulkString(d) => match d {
            Option::Some(p) => if is_utf8(p) {
                Some(p)
            } else {
                None
            },
            Option::None => None,
        },
        _ => None,
    }
}

/// A non-null bulk string payload, of any bytes: the shape of set members.
pub open spec fn bulk_arg(f: FrameV) -> Option<Seq<u8>> {
    match f {
        FrameV::BulkString(d) => match d {
            Option::Some(p) => Some(p),
            Option::None => None,
        },
        _ => None,
    }
}

/// All elements are non-null bulk strings with UTF-8 payloads.
pub open spec fn text_args(els: Seq<FrameV>) -> bool {
    forall|i: int| 0 <= i < els.len() ==> text_arg(#[trigger] els[i]) is Some
}

/// The UTF-8 payloads of `els`.
pub open spec fn text_args_of(els: Seq<FrameV>) -> Seq<Seq<u8>> {
    els.map_values(|f: FrameV| text_arg(f).unwrap())
}

/// All elements are non-null bulk strings.
pub open spec fn bulk_args(els: Seq<FrameV>) -> bool {
    forall|i: int| 0 <= i < els.len() ==> bulk_arg(#[trigger] els[i]) is Some
}

/// The payloads of `els`.
pub open spec fn bulk_args_of(els: Seq<FrameV>) -> Seq<Seq<u8>> {
    els.map_values(|f: FrameV| bulk_arg(f).unwrap())
}

/// The command an element sequence denotes, if any: the first element must
/// be a bulk string whose ASCII-lowercase form is a known verb, the arity
/// must fit, and key/field arguments must be non-null UTF-8 bulk strings.
pub open spec fn command_of_els(els: Seq<FrameV>) -> Option<CommandV> {
    if els.len() == 0 {
        None
    } else {
        match bulk_arg(els[0]) {
            Option::None => None,
            Option::Some(verb0) => {
                let verb = ascii_lower(verb0);
                if verb == verb_get() {
                    if els.len() == 2 && text_arg(els[1]) is Some {
                        Some(CommandV::Get(text_arg(els[1]).unwrap()))
                    } else {
                        None
                    }
                } else if verb == verb_set() {
                    if els.len() == 3 && text_arg(els[1]) is Some {
                        Some(CommandV::SetCmd(text_arg(els[1]).unwrap(), els[2]))
                    } else {
                        None
                    }
                } else if verb == verb_hget() {
                    if els.len() == 3 && text_arg(els[1]) is Some && text_arg(els[2]) is Some {
                        Some(CommandV::HGet(text_arg(els[1]).unwrap(), text_arg(els[2]).unwrap()))
                    } else {
                        None
                    }
                } else if verb == verb_hset() {
                    if els.len() == 4 && text_arg(els[1]) is Some && text_arg(els[2]) is Some {
                        Some(
                            CommandV::HSet(
                                text_arg(els[1]).unwrap(),
                                text_arg(els[2]).unwrap(),
                                els[3],
                            ),
                        )
                    } else {
                        None
                    }
                } else if verb == verb_hgetall() {
                    if els.len() == 2 && text_arg(els[1]) is Some {
                        Some(CommandV::HGetAll(text_arg(els[1]).unwrap()))
                    } else {
                        None
                    }
                } else if verb == verb_hmget() {
                    if els.len() >= 3 && text_args(els.skip(1)) {
                        Some(
                            CommandV::HMGet(
                                text_arg(els[1]).unwrap(),
                                text_args_of(els.skip(2)),
                            ),
                        )
                    } else {
                        None
                    }
                } else if verb == verb_echo() {
                    if els.len() == 2 && text_arg(els[1]) is Some {
                        Some(CommandV::Echo(text_arg(els[1]).unwrap()))
                    } else {
                        None
                    }
                } else if verb == verb_sadd() {
                    if els.len() >= 2 && els.len() <= 9223372036854775807 && text_arg(els[1])
                        is Some && bulk_args(els.skip(2)) {
                        Some(
                            CommandV::SAdd(text_arg(els[1]).unwrap(), bulk_args_of(els.skip(2))),
                        )
                    } else {
                        None
                    }
                } else if verb == verb_sismember() {
                    if els.len() == 3 && text_arg(els[1]) is Some && bulk_arg(els[2]) is Some {
                        Some(
                            CommandV::SIsMember(
                                text_arg(els[1]).unwrap(),
                                bulk_arg(els[2]).unwrap(),
                            ),
                        )
                    } else {
                        None
                    }
                } else {
                    None
                }
            },
        }
    }
}

/// The command an optional element sequence denotes.
pub open spec fn command_of_arr(a: Option<Seq<FrameV>>) -> Option<CommandV> {
    match a {
        Option::Some(els) => command_of_els(els),
        Option::None => None,
    }
}

/// The command a frame denotes: it must be a non-null array.
pub open spec fn command_of(f: FrameV) -> Option<CommandV> {
    match f {
        FrameV::Array(a) => command_of_arr(a),
        _ => None,
    }
}

/// The `+OK` reply payload.
pub open spec fn ok_text() -> Seq<u8> {
    seq![79u8, 75u8]
}

/// Reply frame and new store state of executing a command: the total
/// semantics of the dispatcher.
pub open spec fn eval_command(c: CommandV, s: StoreV) -> (FrameV, StoreV) {
    match c {
        CommandV::Get(k) => (
            match map_lookup(s.kv, k) {
                Option::Some(v) => v,
                Option::None => FrameV::Null,
            },
            s,
        ),
        CommandV::SetCmd(k, v) => (
            FrameV::SimpleString(ok_text()),
            StoreV { kv: map_put(s.kv, k, v), ..s },
        ),
        CommandV::HGet(k, f) => (
            match hash_lookup(s.hkv, k) {
                Option::Some(h) => match map_lookup(h, f) {
                    Option::Some(v) => v,
                    Option::None => FrameV::Null,
                },
                Option::None => FrameV::Null,
            },
            s,
        ),
        CommandV::HSet(k, f, v) => (
            FrameV::SimpleString(ok_text()),
            StoreV { hkv: hash_put(s.hkv, k, f, v), ..s },
        ),
        CommandV::HGetAll(k) => (
            FrameV::Dict(
                match hash_lookup(s.hkv, k) {
                    Option::Some(h) => h,
                    Option::None => Seq::empty(),
                },
            ),
            s,
        ),
        CommandV::HMGet(k, fs) => (
            FrameV::Dict(
                collect_fields(
                    match hash_lookup(s.hkv, k) {
                        Option::Some(h) => h,
                        Option::None => Seq::empty(),
                    },
                    fs,
                ),
            ),
            s,
        ),
        CommandV::Echo(msg) => (FrameV::SimpleString(msg), s),
        CommandV::SAdd(k, ms) => (
            FrameV::Integer(
                members_added(
                    match set_lookup(s.skv, k) {
                        Option::Some(cur) => cur,
                        Option::None => Seq::empty(),
                    },
                    ms,
                ),
            ),
            StoreV {
                skv: set_put(
                    s.skv,
                    k,
                    members_add(
                        match set_lookup(s.skv, k) {
                            Option::Some(cur) => cur,
                            Option::None => Seq::empty(),
                        },
                        ms,
                    ),
                ),
                ..s
            },
        ),
        CommandV::SIsMember(k, m) => (
            FrameV::Integer(
                match set_lookup(s.skv, k) {
                    Option::Some(cur) => if cur.contains(m) {
                        1int
                    } else {
                        0int
                    },
                    Option::None => 0int,
                },
            ),
            s,
        ),
    }
}

// ---------------------------------------------------------------------------
// executable command types
// ---------------------------------------------------------------------------

#[derive(Debug)]
pub struct Get {
    pub key: Vec<u8>,
}

#[derive(Debug)]
pub struct SetCmd {
    pub key: Vec<u8>,
    pub value: RespFrame,
}

#[derive(Debug)]
pub struct HGet {
    pub key: Vec<u8>,
    pub field: Vec<u8>,
}

#[derive(Debug)]
pub struct HSet {
    pub key: Vec<u8>,
    pub field: Vec<u8>,
    pub value: RespFrame,
}

#[derive(Debug)]
pub struct HGetAll {
    pub key: Vec<u8>,
}

#[derive(Debug)]
pub struct HMGet {
    pub key: Vec<u8>,
    pub fields: Vec<Vec<u8>>,
}

#[derive(Debug)]
pub struct Echo {
    pub message: Vec<u8>,
}

#[derive(Debug)]
pub struct SAdd {
    pub key: Vec<u8>,
    pub members: Vec<Vec<u8>>,
}

#[derive(Debug)]
pub struct SIsMember {
    pub key: Vec<u8>,
    pub member: Vec<u8>,
}

/// One parsed request.
#[derive(Debug)]
pub enum Command {
    Get(Get),
    SetCmd(SetCmd),
    HGet(HGet),
    HSet(HSet),
    HGetAll(HGetAll),
    HMGet(HMGet),
    Echo(Echo),
    SAdd(SAdd),
    SIsMember(SIsMember),
}

impl View for Command {
    type V = CommandV;

    open spec fn view(&self) -> CommandV {
        match self {
            Command::Get(c) => CommandV::Get(c.key@),
            Command::SetCmd(c) => CommandV::SetCmd(c.key@, c.value@),
            Command::HGet(c) => CommandV::HGet(c.key@, c.field@),
            Command::HSet(c) => CommandV::HSet(c.key@, c.field@, c.value@),
            Command::HGetAll(c) => CommandV::HGetAll(c.key@),
            Command::HMGet(c) => CommandV::HMGet(c.key@, crate::backend::vecs_view(c.fields@)),
            Command::Echo(c) => CommandV::Echo(c.message@),
            Command::SAdd(c) => CommandV::SAdd(c.key@, crate::backend::vecs_view(c.members@)),
            Command::SIsMember(c) => CommandV::SIsMember(c.key@, c.member@),
        }
    }
}


/// Machine bound on how many members one SADD may carry, so that the reply
/// count fits a signed 64-bit integer.
pub open spec fn cmd_ok(c: CommandV) -> bool {
    match c {
        CommandV::SAdd(_, ms) => ms.len() <= 9223372036854775807,
        _ => true,
    }
}

pub fn make_verb_get() -> (r: Vec<u8>)
    ensures
        r@ == verb_get(),
{
    let mut v: Vec<u8> = Vec::new();
    v.push(103);
    v.push(101);
    v.push(116);
    proof {
        assert(v@ =~= verb_get());
    }
    v
}

pub fn make_verb_set() -> (r: Vec<u8>)
    ensures
        r@ == verb_set(),
{
    let mut v: Vec<u8> = Vec::new();
    v.push(115);
    v.push(101);
    v.push(116);
    proof {
        assert(v@ =~= verb_set());
    }
    v
}

pub fn make_verb_hget() -> (r: Vec<u8>)
    ensures
        r@ == verb_hget(),
{
    let mut v: Vec<u8> = Vec::new();
    v.push(104);
    v.push(103);
    v.push(101);
    v.push(116);
    proof {
        assert(v@ =~= verb_hget());
    }
    v
}

pub fn make_verb_hset() -> (r: Vec<u8>)
    ensures
        r@ == verb_hset(),
{
    let mut v: Vec<u8> = Vec::new();
    v.push(104);
    v.push(115);
    v.push(101);
    v.push(116);
    proof {
        assert(v@ =~= verb_hset());
    }
    v
}

pub fn make_verb_hgetall() -> (r: Vec<u8>)
    ensures
        r@ == verb_hgetall(),
{
    let mut v: Vec<u8> = Vec::new();
    v.push(104);
    v.push(103);
    v.push(101);
    v.push(116);
    v.push(97);
    v.push(108);
    v.push(108);
    proof {
        assert(v@ =~= verb_hgetall());
    }
    v
}

pub fn make_verb_hmget() -> (r: Vec<u8>)
    ensures
        r@ == verb_hmget(),
{
    let mut v: Vec<u8> = Vec::new();
    v.push(104);
    v.push(109);
    v.push(103);
    v.push(101);
    v.push(116);
    proof {
        assert(v@ =~= verb_hmget());
    }
    v
}

pub fn make_verb_echo() -> (r: Vec<u8>)
    ensures
        r@ == verb_echo(),
{
    let mut v: Vec<u8> = Vec::new();
    v.push(101);
    v.push(99);
    v.push(104);
    v.push(111);
    proof {
        assert(v@ =~= verb_echo());
    }
    v
}

pub fn make_verb_sadd() -> (r: Vec<u8>)
    ensures
        r@ == verb_sadd(),
{
    let mut v: Vec<u8> = Vec::new();
    v.push(115);
    v.push(97);
    v.push(100);
    v.push(100);
    proof {
        assert(v@ =~= verb_sadd());
    }
    v
}

pub fn make_verb_sismember() -> (r: Vec<u8>)
    ensures
        r@ == verb_sismember(),
{
    let mut v: Vec<u8> = Vec::new();
    v.push(115);
    v.push(105);
    v.push(115);
    v.push(109);
    v.push(101);
    v.push(109);
    v.push(98);
    v.push(101);
    v.push(114);
    proof {
        assert(v@ =~= verb_sismember());
    }
    v
}

/// The conditions `validate_command` accepts: the array is non-null, has
/// exactly `n_arg + 1` elements, and its first element is a bulk string
/// whose ASCII-lowercase payload is `cmd`.
pub open spec fn valid_header(a: Option<Seq<FrameV>>, cmd: Seq<u8>, n_arg: int) -> bool {
    match a {
        Option::Some(els) => els.len() == n_arg + 1 && els.len() >= 1 && bulk_arg(els[0]) is Some
            && ascii_lower(bulk_arg(els[0]).unwrap()) == cmd,
        Option::None => false,
    }
}

/// Checks arity and verb of a request array.
pub fn validate_command(value: &RespArray, cmd: &Vec<u8>, n_arg: usize) -> (r: Result<
    (),
    CommandError,
>)
    requires
        n_arg < usize::MAX,
    ensures
        r is Ok <==> valid_header(value@, cmd@, n_arg as int),
{
    let len: usize = match &value.0 {
        Option::Some(v) => v.len(),
        Option::None => 0,
    };
    proof {
        match &value.0 {
            Option::Some(v) => {
                crate::resp::frame::lemma_frames_view_len(v@);
            },
            Option::None => {},
        }
    }
    if len != n_arg + 1 {
        let mut m: Vec<u8> = Vec::new();
        append_slice(&mut m, "length of ".as_bytes());
        append_vec(&mut m, cmd);
        append_slice(&mut m, " command arguments must be ".as_bytes());
        let d = crate::resp::encode::u64_dec(n_arg as u64);
        append_vec(&mut m, &d);
        return Err(CommandError::InvalidArgument(m));
    }
    match &value.0 {
        Option::None => Err(
            CommandError::InvalidCommand(Vec::new()),
        ),
        Option::Some(v) => {
            proof {
                crate::resp::frame::lemma_frames_view_index(v@, 0);
                crate::resp::frame::lemma_view_variant(&v@[0]);
            }
            match &v[0] {
                RespFrame::BulkString(b) => match &b.0 {
                    Option::Some(p) => {
                        let low = to_ascii_lower(p);
                        if crate::resp::frame::bytes_eq(&low, cmd) {
                            Ok(())
                        } else {
                            let mut m: Vec<u8> = Vec::new();
                            append_slice(&mut m, "Invalid command: expected: ".as_bytes());
                            append_vec(&mut m, cmd);
                            append_slice(&mut m, ", got: ".as_bytes());
                            append_vec(&mut m, p);
                            Err(CommandError::InvalidArgument(m))
                        }
                    },
                    Option::None => Err(
                        CommandError::InvalidCommand(Vec::new()),
                    ),
                },
                _ => Err(
                    CommandError::InvalidCommand(Vec::new()),
                ),
            }
        },
    }
}

/// The elements of the request from position `start` on.
pub fn extract_args(value: RespArray, start: usize) -> (r: Vec<RespFrame>)
    ensures
        match value@ {
            Option::Some(els) => crate::resp::frame::frames_view(r@) == if start <= els.len() {
                els.skip(start as int)
            } else {
                Seq::<FrameV>::empty()
            },
            Option::None => r@.len() == 0,
        },
{
    match value.0 {
        Option::None => Vec::new(),
        Option::Some(v) => {
            proof {
                crate::resp::frame::lemma_frames_view_len(v@);
            }
            let n = v.len();
            let mut r: Vec<RespFrame> = Vec::new();
            if start > n {
                proof {
                    assert(crate::resp::frame::frames_view(r@) =~= Seq::<FrameV>::empty());
                }
                return r;
            }
            let mut i: usize = start;
            while i < n
                invariant
                    start <= i <= n == v@.len(),
                    crate::resp::frame::frames_view(v@).len() == n,
                    crate::resp::frame::frames_view(r@) == crate::resp::frame::frames_view(
                        v@,
                    ).subrange(start as int, i as int),
                decreases n - i,
            {
                proof {
                    crate::resp::frame::lemma_frames_view_index(v@, i as int);
                }
                let ghost prev = r@;
                let f = v[i].clone();
                r.push(f);
                proof {
                    crate::resp::frame::lemma_frames_view_push(prev, f);
                    assert(crate::resp::frame::frames_view(r@) =~= crate::resp::frame::frames_view(
                        v@,
                    ).subrange(start as int, i + 1));
                }
                i = i + 1;
            }
            proof {
                assert(crate::resp::frame::frames_view(v@).subrange(
                    start as int,
                    n as int,
                ) =~= crate::resp::frame::frames_view(v@).skip(start as int));
            }
            r
        },
    }
}


/// Which verb the request array carries: 0 when there is no usable verb,
/// 1 to 9 for the known verbs in dispatch order, 10 for an unknown verb.
pub open spec fn spec_verb_tag(a: Option<Seq<FrameV>>) -> int {
    match a {
        Option::None => 0,
        Option::Some(els) => if els.len() == 0 {
            0
        } else {
            match bulk_arg(els[0]) {
                Option::None => 0,
                Option::Some(p) => {
                    let verb = ascii_lower(p);
                    if verb == verb_get() {
                        1
                    } else if verb == verb_set() {
                        2
                    } else if verb == verb_hget() {
                        3
                    } else if verb == verb_hset() {
                        4
                    } else if verb == verb_hgetall() {
                        5
                    } else if verb == verb_hmget() {
                        6
                    } else if verb == verb_echo() {
                        7
                    } else if verb == verb_sadd() {
                        8
                    } else if verb == verb_sismember() {
                        9
                    } else {
                        10
                    }
                },
            }
        },
    }
}

/// Reads the verb of the request array.
fn verb_tag(value: &RespArray) -> (t: u8)
    ensures
        t as int == spec_verb_tag(value@),
{
    match &value.0 {
        Option::None => 0,
        Option::Some(v) => {
            if v.len() == 0 {
                proof {
                    crate::resp::frame::lemma_frames_view_len(v@);
                }
                return 0;
            }
            proof {
                crate::resp::frame::lemma_frames_view_len(v@);
                crate::resp::frame::lemma_frames_view_index(v@, 0);
                crate::resp::frame::lemma_view_variant(&v@[0]);
            }
            match &v[0] {
                RespFrame::BulkString(b) => match &b.0 {
                    Option::Some(p) => {
                        let low = to_ascii_lower(p);
                        if crate::resp::frame::bytes_eq(&low, &make_verb_get()) {
                            1
                        } else if crate::resp::frame::bytes_eq(&low, &make_verb_set()) {
                            2
                        } else if crate::resp::frame::bytes_eq(&low, &make_verb_hget()) {
                            3
                        } else if crate::resp::frame::bytes_eq(&low, &make_verb_hset()) {
                            4
                        } else if crate::resp::frame::bytes_eq(&low, &make_verb_hgetall()) {
                            5
                        } else if crate::resp::frame::bytes_eq(&low, &make_verb_hmget()) {
                            6
                        } else if crate::resp::frame::bytes_eq(&low, &make_verb_echo()) {
                            7
                        } else if crate::resp::frame::bytes_eq(&low, &make_verb_sadd()) {
                            8
                        } else if crate::resp::frame::bytes_eq(&low, &make_verb_sismember()) {
                            9
                        } else {
                            10
                        }
                    },
                    Option::None => 0,
                },
                _ => 0,
            }
        },
    }
}

impl Command {
    /// Builds a command from a request array; succeeds exactly when the
    /// array denotes some command.
    pub fn try_from_array(value: RespArray) -> (r: Result<Command, CommandError>)
        ensures
            match r {
                Result::Ok(c) => command_of_arr(value@) == Some(c@) && cmd_ok(c@),
                Result::Err(_) => command_of_arr(value@) is None,
            },
    {
        let tag = verb_tag(&value);
        if tag == 1 {
            match Get::try_from(value) {
                Result::Ok(c) => Ok(Command::Get(c)),
                Result::Err(e) => Err(e),
            }
        } else if tag == 2 {
            match SetCmd::try_from(value) {
                Result::Ok(c) => Ok(Command::SetCmd(c)),
                Result::Err(e) => Err(e),
            }
        } else if tag == 3 {
            match HGet::try_from(value) {
                Result::Ok(c) => Ok(Command::HGet(c)),
                Result::Err(e) => Err(e),
            }
        } else if tag == 4 {
            match HSet::try_from(value) {
                Result::Ok(c) => Ok(Command::HSet(c)),
                Result::Err(e) => Err(e),
            }
        } else if tag == 5 {
            match HGetAll::try_from(value) {
                Result::Ok(c) => Ok(Command::HGetAll(c)),
                Result::Err(e) => Err(e),
            }
        } else if tag == 6 {
            match HMGet::try_from(value) {
                Result::Ok(c) => Ok(Command::HMGet(c)),
                Result::Err(e) => Err(e),
            }
        } else if tag == 7 {
            match Echo::try_from(value) {
                Result::Ok(c) => Ok(Command::Echo(c)),
                Result::Err(e) => Err(e),
            }
        } else if tag == 8 {
            match SAdd::try_from(value) {
                Result::Ok(c) => Ok(Command::SAdd(c)),
                Result::Err(e) => Err(e),
            }
        } else if tag == 9 {
            match SIsMember::try_from(value) {
                Result::Ok(c) => Ok(Command::SIsMember(c)),
                Result::Err(e) => Err(e),
            }
        } else if tag == 10 {
            let mut m: Vec<u8> = Vec::new();
            append_slice(&mut m, "unknown verb".as_bytes());
            Err(CommandError::InvalidCommand(m))
        } else {
            let mut m: Vec<u8> = Vec::new();
            append_slice(
                &mut m,
                "Command must have a BulkString as the first argument".as_bytes(),
            );
            Err(CommandError::InvalidCommand(m))
        }
    }

    /// Builds a command from a decoded frame; only an array frame can form
    /// a command.
    pub fn try_from(frame: RespFrame) -> (r: Result<Command, CommandError>)
        ensures
            match r {
                Result::Ok(c) => command_of(frame@) == Some(c@) && cmd_ok(c@),
                Result::Err(_) => command_of(frame@) is None,
            },
    {
        proof {
            crate::resp::frame::lemma_view_variant(&frame);
        }
        match frame {
            RespFrame::Array(a) => Command::try_from_array(a),
            _ => {
                let mut m: Vec<u8> = Vec::new();
                append_slice(&mut m, "Command must be an Array".as_bytes());
                Err(CommandError::InvalidCommand(m))
            },
        }
    }

    /// Runs the command against the store: every command yields a reply
    /// frame, and the store changes exactly as `eval_command` says.
    pub fn execute(self, backend: &mut Backend) -> (r: RespFrame)
        requires
            cmd_ok(self@),
        ensures
            ({
                let p = eval_command(self@, old(backend)@);
                r@ == p.0 && final(backend)@ == p.1
            }),
    {
        match self {
            Command::Get(c) => c.execute(backend),
            Command::SetCmd(c) => c.execute(backend),
            Command::HGet(c) => c.execute(backend),
            Command::HSet(c) => c.execute(backend),
            Command::HGetAll(c) => c.execute(backend),
            Command::HMGet(c) => c.execute(backend),
            Command::Echo(c) => c.execute(backend),
            Command::SAdd(c) => c.execute(backend),
            Command::SIsMember(c) => c.execute(backend),
        }
    }
}


/// Writing a hash field and reading it back: after HSET, HGET of the same
/// key and field answers exactly the value just set, and HGETALL's map
/// holds the new field while every other field of that hash (and every
/// other hash) reads as before.
pub proof fn lemma_hset_then_reads(st: StoreV, k: Seq<u8>, f: Seq<u8>, v: FrameV, f2: Seq<u8>, k2: Seq<u8>)
    ensures
        eval_command(CommandV::HGet(k, f), eval_command(CommandV::HSet(k, f, v), st).1).0 == v,
        ({
            let all = eval_command(
                CommandV::HGetAll(k),
                eval_command(CommandV::HSet(k, f, v), st).1,
            ).0;
            let before = match hash_lookup(st.hkv, k) {
                Option::Some(h) => h,
                Option::None => Seq::empty(),
            };
            all is Dict && map_lookup(all->Dict_0, f) == Some(v) && (f2 != f ==> map_lookup(
                all->Dict_0,
                f2,
            ) == map_lookup(before, f2))
        }),
        k2 != k ==> hash_lookup(eval_command(CommandV::HSet(k, f, v), st).1.hkv, k2)
            == hash_lookup(st.hkv, k2),
{
    let st2 = eval_command(CommandV::HSet(k, f, v), st).1;
    let before = match hash_lookup(st.hkv, k) {
        Option::Some(h) => h,
        Option::None => Seq::<(Seq<u8>, FrameV)>::empty(),
    };
    crate::backend::lemma_hash_put_lookup(st.hkv, k, f, v, k);
    crate::backend::lemma_hash_put_lookup(st.hkv, k, f, v, k2);
    assert(hash_lookup(st2.hkv, k) == Some(map_put(before, f, v)));
    crate::resp::wire::lemma_map_put_lookup(before, f, v, f);
    crate::resp::wire::lemma_map_put_lookup(before, f, v, f2);
}

/// Writing a plain key and reading it back: after SET, GET of the same key
/// answers exactly the value just set, and every other key reads as
/// before.
pub proof fn lemma_set_then_get(st: StoreV, k: Seq<u8>, v: FrameV, k2: Seq<u8>)
    ensures
        eval_command(CommandV::Get(k), eval_command(CommandV::SetCmd(k, v), st).1).0 == v,
        k2 != k ==> eval_command(CommandV::Get(k2), eval_command(CommandV::SetCmd(k, v), st).1).0
            == eval_command(CommandV::Get(k2), st).0,
{
    crate::resp::wire::lemma_map_put_lookup(st.kv, k, v, k);
    crate::resp::wire::lemma_map_put_lookup(st.kv, k, v, k2);
}

} // verus!



