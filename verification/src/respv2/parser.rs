//! The executable frame parser, proved against `parse_frame_s`: it
//! materializes exactly the frame the model assigns to the input bytes and
//! consumes exactly as many bytes.

use vstd::prelude::*;

use crate::resp::decode::copy_range;
use crate::resp::decode::find_crlf_from;
use crate::resp::decode::is_double_token_exec;
use crate::resp::decode::parse_i64_token;
use crate::resp::err::RespError;
use crate::resp::frame::Double;
use crate::resp::frame::BulkString;
use crate::resp::frame::RespArray;
use crate::resp::frame::RespFrame;
use crate::resp::frame::RespMap;
use crate::resp::frame::RespNull;
use crate::resp::frame::RespSet;
use crate::resp::frame::SimpleError;
use crate::resp::frame::SimpleString;
use crate::resp::frame::frame_eq;
use crate::resp::frame::frames_view;
use crate::resp::frame::lemma_frames_view_index;
use crate::resp::frame::lemma_frames_view_len;
use crate::resp::frame::lemma_frames_view_push;
use crate::resp::wire::FrameV;
use crate::resp::wire::SpecParse;
use crate::resp::wire::SpecParseEntries;
use crate::resp::wire::SpecParseList;
use crate::resp::wire::crlf_at;
use crate::resp::wire::dedup_els;
use crate::resp::wire::first_crlf;
use crate::resp::wire::lemma_first_crlf_shift;
use crate::resp::wire::map_from_entries;
use crate::resp::wire::parse_els;
use crate::resp::wire::parse_frame_s;
use crate::resp::wire::parse_map_entries;
use crate::resp::wire::parse_value_then_entries;
use crate::resp::wire::scan_frame_s;
use crate::respv2::parser_len::scan_frame;

verus! {

/// Prepends already-parsed frames and already-consumed bytes to a list
/// outcome.
pub open spec fn lift_list(r: SpecParseList, pre: Seq<FrameV>, d: int) -> SpecParseList {
    match r {
        SpecParseList::Done(els, m) => SpecParseList::Done(pre + els, d + m),
        SpecParseList::Incomplete => SpecParseList::Incomplete,
        SpecParseList::Invalid => SpecParseList::Invalid,
    }
}

/// Prepends already-parsed entries and already-consumed bytes to an entries
/// outcome.
pub open spec fn lift_entries(r: SpecParseEntries, pre: Seq<(Seq<u8>, FrameV)>, d: int) -> SpecParseEntries {
    match r {
        SpecParseEntries::Done(es, m) => SpecParseEntries::Done(pre + es, d + m),
        SpecParseEntries::Incomplete => SpecParseEntries::Incomplete,
        SpecParseEntries::Invalid => SpecParseEntries::Invalid,
    }
}

/// The outcome `r` reports of a byte sequence whose parse is `s`.
pub open spec fn parse_result_matches(s: Seq<u8>, r: Result<(RespFrame, usize), RespError>) -> bool {
    match r {
        Result::Ok(p) => parse_frame_s(s) == SpecParse::Done(p.0@, p.1 as int),
        Result::Err(e) => match e {
            RespError::NotCompleted => parse_frame_s(s) is Incomplete,
            _ => parse_frame_s(s) is Invalid,
        },
    }
}

/// Parses the frame starting at `from`.
pub(crate) fn parse_frame_at(buf: &[u8], from: usize) -> (r: Result<(RespFrame, usize), RespError>)
    requires
        from <= buf@.len(),
    ensures
        parse_result_matches(buf@.skip(from as int), r),
        match r {
            Result::Ok(p) => from + p.1 <= buf@.len() && p.1 >= 3,
            Result::Err(_) => true,
        },
    decreases buf@.len() - from, 0nat, 0nat,
{
    let ghost sfx = buf@.skip(from as int);
    let n_buf = buf.len();
    if from == n_buf {
        proof {
            assert(sfx.len() == 0);
        }
        return Err(RespError::NotCompleted);
    }
    let b = buf[from];
    proof {
        assert(sfx[0] == buf@[from as int]);
        assert(sfx.len() == buf@.len() - from);
    }
    match find_crlf_from(buf, from + 1) {
        Option::None => {
            proof {
                lemma_first_crlf_shift(buf@, from as int, 1);
            }
            if b == 43 || b == 45 || b == 58 || b == 35 || b == 95 || b == 44 || b == 36 || b
                == 42 || b == 126 || b == 37 {
                Err(RespError::NotCompleted)
            } else {
                Err(RespError::InvalidFrameType(Vec::new()))
            }
        },
        Option::Some(e) => {
            proof {
                lemma_first_crlf_shift(buf@, from as int, 1);
                assert(first_crlf(sfx, 1) == Some(e - from));
                assert(sfx.subrange(1, e - from) =~= buf@.subrange(from + 1, e as int));
            }
            if b == 43 || b == 45 {
                // simple string / simple error
                let content = copy_range(buf, from + 1, e);
                if b == 43 {
                    Ok((RespFrame::SimpleString(SimpleString(content)), e + 2 - from))
                } else {
                    Ok((RespFrame::Error(SimpleError(content)), e + 2 - from))
                }
            } else if b == 58 {
                // integer
                match parse_i64_token(buf, from + 1, e) {
                    Option::None => Err(RespError::ParseIntError),
                    Option::Some(v) => Ok((RespFrame::Integer(v), e + 2 - from)),
                }
            } else if b == 35 {
                // boolean
                proof {
                    if e == from + 2 {
                        assert(sfx[1] == buf@[from + 1]);
                    }
                }
                if e == from + 2 && buf[from + 1] == 116 {
                    Ok((RespFrame::Boolean(true), 4))
                } else if e == from + 2 && buf[from + 1] == 102 {
                    Ok((RespFrame::Boolean(false), 4))
                } else {
                    Err(RespError::InvalidFrameType(Vec::new()))
                }
            } else if b == 95 {
                // null
                if e == from + 1 {
                    Ok((RespFrame::Null(RespNull), 3))
                } else {
                    Err(RespError::InvalidFrameType(Vec::new()))
                }
            } else if b == 44 {
                // double
                let token = copy_range(buf, from + 1, e);
                if is_double_token_exec(&token) {
                    Ok((RespFrame::Double(Double(token)), e + 2 - from))
                } else {
                    Err(RespError::ParseFloatError)
                }
            } else if b == 36 {
                // bulk string
                match parse_i64_token(buf, from + 1, e) {
                    Option::None => Err(RespError::ParseIntError),
                    Option::Some(v) => {
                        if v == -1 {
                            Ok((RespFrame::BulkString(BulkString(Option::None)), e + 2 - from))
                        } else if v < -1 {
                            Err(RespError::InvalidFrame(Vec::new()))
                        } else {
                            let rem = n_buf - (e + 2);
                            if (rem as u64) < (v as u64) + 2 {
                                Err(RespError::NotCompleted)
                            } else {
                                let dlen = v as usize;
                                proof {
                                    assert(sfx[(e - from) + 2 + v] == buf@[e + 2 + v]);
                                    assert(sfx[(e - from) + 2 + v + 1] == buf@[e + 2 + v + 1]);
                                }
                                if buf[e + 2 + dlen] == 13 && buf[e + 2 + dlen + 1] == 10 {
                                    let data = copy_range(buf, e + 2, e + 2 + dlen);
                                    proof {
                                        assert(sfx.subrange(
                                            (e - from) + 2,
                                            (e - from) + 2 + v,
                                        ) =~= buf@.subrange(e + 2, e + 2 + v));
                                        assert(crlf_at(sfx, (e - from) + 2 + v));
                                    }
                                    Ok(
                                        (
                                            RespFrame::BulkString(BulkString(Option::Some(data))),
                                            e + 2 - from + dlen + 2,
                                        ),
                                    )
                                } else {
                                    proof {
                                        assert(!crlf_at(sfx, (e - from) + 2 + v));
                                    }
                                    Err(RespError::InvalidFrameType(Vec::new()))
                                }
                            }
                        }
                    },
                }
            } else if b == 42 {
                // array
                match parse_i64_token(buf, from + 1, e) {
                    Option::None => Err(RespError::ParseIntError),
                    Option::Some(v) => {
                        if v == -1 {
                            Ok((RespFrame::Array(RespArray(Option::None)), e + 2 - from))
                        } else if v < -1 {
                            Err(RespError::InvalidFrame(Vec::new()))
                        } else {
                            proof {
                                assert(sfx.skip(e - from + 2) =~= buf@.skip(e + 2));
                            }
                            match parse_list_exec(buf, e + 2, v as u64) {
                                Result::Ok(p) => Ok(
                                    (
                                        RespFrame::Array(RespArray(Option::Some(p.0))),
                                        e + 2 - from + p.1,
                                    ),
                                ),
                                Result::Err(x) => Err(x),
                            }
                        }
                    },
                }
            } else if b == 126 {
                // set
                match parse_i64_token(buf, from + 1, e) {
                    Option::None => Err(RespError::ParseIntError),
                    Option::Some(v) => {
                        if v < 0 {
                            Err(RespError::InvalidFrame(Vec::new()))
                        } else {
                            proof {
                                assert(sfx.skip(e - from + 2) =~= buf@.skip(e + 2));
                            }
                            match parse_set_exec(buf, e + 2, v as u64) {
                                Result::Ok(p) => Ok(
                                    (RespFrame::Uniq(RespSet(p.0)), e + 2 - from + p.1),
                                ),
                                Result::Err(x) => Err(x),
                            }
                        }
                    },
                }
            } else if b == 37 {
                // map
                match parse_i64_token(buf, from + 1, e) {
                    Option::None => Err(RespError::ParseIntError),
                    Option::Some(v) => {
                        if v < 1 {
                            Err(RespError::InvalidFrame(Vec::new()))
                        } else {
                            proof {
                                assert(sfx.skip(e - from + 2) =~= buf@.skip(e + 2));
                            }
                            match parse_entries_exec(buf, e + 2, v as u64) {
                                Result::Ok(p) => Ok(
                                    (RespFrame::Dict(p.0), e + 2 - from + p.1),
                                ),
                                Result::Err(x) => Err(x),
                            }
                        }
                    },
                }
            } else {
                Err(RespError::InvalidFrameType(Vec::new()))
            }
        },
    }
}

/// Parses `n` consecutive frames starting at `from`, in order.
pub(crate) fn parse_list_exec(buf: &[u8], from: usize, n: u64) -> (r: Result<
    (Vec<RespFrame>, usize),
    RespError,
>)
    requires
        from <= buf@.len(),
    ensures
        match r {
            Result::Ok(p) => parse_els(buf@.skip(from as int), n as nat) == SpecParseList::Done(
                frames_view(p.0@),
                p.1 as int,
            ) && from + p.1 <= buf@.len(),
            Result::Err(e) => match e {
                RespError::NotCompleted => parse_els(buf@.skip(from as int), n as nat)
                    is Incomplete,
                _ => parse_els(buf@.skip(from as int), n as nat) is Invalid,
            },
        },
    decreases buf@.len() - from, n, 1nat,
{
    let ghost sfx0 = buf@.skip(from as int);
    let n_buf = buf.len();
    let mut acc: Vec<RespFrame> = Vec::new();
    let mut pos: usize = from;
    let mut i: u64 = 0;
    proof {
        assert(frames_view(acc@) =~= Seq::<FrameV>::empty());
    }
    while i < n
        invariant
            from <= pos <= buf@.len(),
            i <= n,
            n_buf == buf@.len(),
            sfx0 == buf@.skip(from as int),
            parse_els(sfx0, n as nat) == lift_list(
                parse_els(buf@.skip(pos as int), (n - i) as nat),
                frames_view(acc@),
                pos - from,
            ),
        decreases n - i,
    {
        let ghost cur = buf@.skip(pos as int);
        let ghost pre = frames_view(acc@);
        match parse_frame_at(buf, pos) {
            Result::Err(x) => {
                return Err(x);
            },
            Result::Ok(p) => {
                let (f, k) = p;
                proof {
                    assert(cur.skip(k as int) =~= buf@.skip(pos + k));
                    lemma_frames_view_push(acc@, f);
                    let step = parse_els(cur.skip(k as int), (n - i - 1) as nat);
                    match step {
                        SpecParseList::Done(els2, m2) => {
                            assert(parse_els(cur, (n - i) as nat) == SpecParseList::Done(
                                seq![f@] + els2,
                                k + m2,
                            ));
                            assert(pre + (seq![f@] + els2) =~~= pre.push(f@) + els2);
                        },
                        SpecParseList::Incomplete => {},
                        SpecParseList::Invalid => {},
                    }
                }
                acc.push(f);
                pos = pos + k;
                i = i + 1;
            },
        }
    }
    proof {
        assert(parse_els(buf@.skip(pos as int), 0nat) == SpecParseList::Done(
            Seq::<FrameV>::empty(),
            0,
        ));
        assert(frames_view(acc@) + Seq::<FrameV>::empty() =~~= frames_view(acc@));
    }
    Ok((acc, pos - from))
}

/// True when some frame of `v` has the same model value as `f`.
fn contains_frame(v: &Vec<RespFrame>, f: &RespFrame) -> (r: bool)
    ensures
        r <==> frames_view(v@).contains(f@),
{
    let n = v.len();
    proof {
        lemma_frames_view_len(v@);
    }
    let mut i: usize = 0;
    while i < n
        invariant
            i <= n == v@.len(),
            frames_view(v@).len() == n,
            forall|j: int| 0 <= j < i ==> #[trigger] frames_view(v@)[j] != f@,
        decreases n - i,
    {
        proof {
            lemma_frames_view_index(v@, i as int);
        }
        if frame_eq(&v[i], f) {
            proof {
                assert(frames_view(v@)[i as int] == f@);
            }
            return true;
        }
        i = i + 1;
    }
    proof {
        assert(!frames_view(v@).contains(f@)) by {
            if frames_view(v@).contains(f@) {
                let j = choose|j: int| 0 <= j < frames_view(v@).len() && frames_view(v@)[j] == f@;
                assert(frames_view(v@)[j] != f@);
            }
        }
    }
    false
}

/// Parses `n` consecutive frames starting at `from` and drops duplicates,
/// keeping first-seen order.
pub(crate) fn parse_set_exec(buf: &[u8], from: usize, n: u64) -> (r: Result<
    (Vec<RespFrame>, usize),
    RespError,
>)
    requires
        from <= buf@.len(),
    ensures
        match r {
            Result::Ok(p) => (match parse_els(buf@.skip(from as int), n as nat) {
                SpecParseList::Done(els, m) => frames_view(p.0@) == dedup_els(els) && p.1 == m
                    && from + p.1 <= buf@.len(),
                _ => false,
            }),
            Result::Err(e) => match e {
                RespError::NotCompleted => parse_els(buf@.skip(from as int), n as nat)
                    is Incomplete,
                _ => parse_els(buf@.skip(from as int), n as nat) is Invalid,
            },
        },
    decreases buf@.len() - from, n, 1nat,
{
    let ghost sfx0 = buf@.skip(from as int);
    let n_buf = buf.len();
    let mut acc: Vec<RespFrame> = Vec::new();
    let ghost mut raw: Seq<FrameV> = Seq::empty();
    let mut pos: usize = from;
    let mut i: u64 = 0;
    proof {
        assert(frames_view(acc@) =~= Seq::<FrameV>::empty());
        assert(dedup_els(raw) =~= Seq::<FrameV>::empty());
    }
    while i < n
        invariant
            from <= pos <= buf@.len(),
            i <= n,
            n_buf == buf@.len(),
            sfx0 == buf@.skip(from as int),
            frames_view(acc@) == dedup_els(raw),
            parse_els(sfx0, n as nat) == lift_list(
                parse_els(buf@.skip(pos as int), (n - i) as nat),
                raw,
                pos - from,
            ),
        decreases n - i,
    {
        let ghost cur = buf@.skip(pos as int);
        match parse_frame_at(buf, pos) {
            Result::Err(x) => {
                return Err(x);
            },
            Result::Ok(p) => {
                let (f, k) = p;
                proof {
                    assert(cur.skip(k as int) =~= buf@.skip(pos + k));
                    let step = parse_els(cur.skip(k as int), (n - i - 1) as nat);
                    match step {
                        SpecParseList::Done(els2, m2) => {
                            assert(parse_els(cur, (n - i) as nat) == SpecParseList::Done(
                                seq![f@] + els2,
                                k + m2,
                            ));
                            assert(raw + (seq![f@] + els2) =~~= raw.push(f@) + els2);
                        },
                        SpecParseList::Incomplete => {},
                        SpecParseList::Invalid => {},
                    }
                    assert(raw.push(f@).drop_last() =~= raw);
                    assert(raw.push(f@).last() == f@);
                }
                let dup = contains_frame(&acc, &f);
                proof {
                    if dup {
                        assert(dedup_els(raw.push(f@)) == dedup_els(raw));
                    } else {
                        lemma_frames_view_push(acc@, f);
                        assert(dedup_els(raw.push(f@)) == dedup_els(raw).push(f@));
                    }
                }
                if !dup {
                    acc.push(f);
                }
                proof {
                    raw = raw.push(f@);
                }
                pos = pos + k;
                i = i + 1;
            },
        }
    }
    proof {
        assert(parse_els(buf@.skip(pos as int), 0nat) == SpecParseList::Done(
            Seq::<FrameV>::empty(),
            0,
        ));
        assert(raw + Seq::<FrameV>::empty() =~~= raw);
    }
    Ok((acc, pos - from))
}

/// Parses `n` consecutive key/value entries starting at `from` and merges
/// them into a map: a repeated key overwrites the value in place.
pub(crate) fn parse_entries_exec(buf: &[u8], from: usize, n: u64) -> (r: Result<
    (RespMap, usize),
    RespError,
>)
    requires
        from <= buf@.len(),
    ensures
        match r {
            Result::Ok(p) => (match parse_map_entries(buf@.skip(from as int), n as nat) {
                SpecParseEntries::Done(es, m) => p.0@ == map_from_entries(es) && p.1 == m && from
                    + p.1 <= buf@.len(),
                _ => false,
            }),
            Result::Err(e) => match e {
                RespError::NotCompleted => parse_map_entries(buf@.skip(from as int), n as nat)
                    is Incomplete,
                _ => parse_map_entries(buf@.skip(from as int), n as nat) is Invalid,
            },
        },
    decreases buf@.len() - from, n, 1nat,
{
    let ghost sfx0 = buf@.skip(from as int);
    let n_buf = buf.len();
    let mut built = RespMap::new();
    let ghost mut es: Seq<(Seq<u8>, FrameV)> = Seq::empty();
    let mut pos: usize = from;
    let mut i: u64 = 0;
    while i < n
        invariant
            from <= pos <= buf@.len(),
            i <= n,
            n_buf == buf@.len(),
            sfx0 == buf@.skip(from as int),
            built@ == map_from_entries(es),
            parse_map_entries(sfx0, n as nat) == lift_entries(
                parse_map_entries(buf@.skip(pos as int), (n - i) as nat),
                es,
                pos - from,
            ),
        decreases n - i,
    {
        let ghost cur = buf@.skip(pos as int);
        match parse_frame_at(buf, pos) {
            Result::Err(x) => {
                return Err(x);
            },
            Result::Ok(kp) => {
                let (kf, kk) = kp;
                proof {
                    crate::resp::frame::lemma_view_variant(&kf);
                }
                match kf {
                    RespFrame::SimpleString(ss) => {
                        let key = ss.0;
                        let ghost gkey = key@;
                        let ghost gvf: FrameV;
                        let ghost cur2 = buf@.skip(pos + kk);
                        proof {
                            assert(cur.skip(kk as int) =~= cur2);
                        }
                        match parse_frame_at(buf, pos + kk) {
                            Result::Err(x) => {
                                proof {
                                    // the value outcome decides the entries outcome
                                    assert(parse_value_then_entries(
                                        cur.skip(kk as int),
                                        (n - i - 1) as nat,
                                    ) == parse_value_then_entries(cur2, (n - i - 1) as nat));
                                }
                                return Err(x);
                            },
                            Result::Ok(vp) => {
                                let (vf, vk) = vp;
                                proof {
                                    gvf = vf@;
                                }
                                let ghost cur3 = buf@.skip(pos + kk + vk);
                                proof {
                                    assert(cur2.skip(vk as int) =~= cur3);
                                    let step = parse_map_entries(cur3, (n - i - 1) as nat);
                                    match step {
                                        SpecParseEntries::Done(es3, m3) => {
                                            let es2 = seq![
                                                (Seq::<u8>::empty(), vf@),
                                            ] + es3;
                                            assert(parse_value_then_entries(
                                                cur2,
                                                (n - i - 1) as nat,
                                            ) == SpecParseEntries::Done(es2, vk + m3));
                                            assert(es2[0].1 == vf@);
                                            assert(es2.skip(1) =~= es3);
                                            assert(parse_map_entries(cur, (n - i) as nat)
                                                == SpecParseEntries::Done(
                                                seq![(key@, vf@)] + es3,
                                                kk + vk + m3,
                                            ));
                                            assert(es + (seq![(key@, vf@)] + es3) =~~= es.push(
                                                (key@, vf@),
                                            ) + es3);
                                        },
                                        SpecParseEntries::Incomplete => {},
                                        SpecParseEntries::Invalid => {},
                                    }
                                    assert(es.push((key@, vf@)).drop_last() =~= es);
                                }
                                built.insert(key, vf);
                                proof {
                                    es = es.push((gkey, gvf));
                                }
                                pos = pos + kk + vk;
                                i = i + 1;
                            },
                        }
                    },
                    _ => {
                        return Err(RespError::InvalidFrameType(Vec::new()));
                    },
                }
            },
        }
    }
    proof {
        assert(parse_map_entries(buf@.skip(pos as int), 0nat) == SpecParseEntries::Done(
            Seq::<(Seq<u8>, FrameV)>::empty(),
            0,
        ));
        assert(es + Seq::<(Seq<u8>, FrameV)>::empty() =~~= es);
    }
    Ok((built, pos - from))
}

/// Parses one frame from the head of `input`, returning it together with
/// the number of bytes it occupies.
pub fn parse_frame(input: &[u8]) -> (r: Result<(RespFrame, usize), RespError>)
    ensures
        parse_result_matches(input@, r),
        match r {
            Result::Ok(p) => p.1 <= input@.len() && p.1 >= 3,
            Result::Err(_) => true,
        },
{
    proof {
        assert(input@.skip(0) =~= input@);
    }
    parse_frame_at(input, 0)
}

/// Removes the first `n` bytes of `buf`.
fn drain_front(buf: &mut Vec<u8>, n: usize)
    requires
        n <= old(buf)@.len(),
    ensures
        final(buf)@ == old(buf)@.skip(n as int),
{
    let len = buf.len();
    let mut rest: Vec<u8> = Vec::new();
    let mut i: usize = n;
    while i < len
        invariant
            n <= i <= len == buf@.len(),
            buf@ == old(buf)@,
            rest@ == buf@.subrange(n as int, i as int),
        decreases len - i,
    {
        let x = buf[i];
        rest.push(x);
        proof {
            assert(rest@ =~= buf@.subrange(n as int, i + 1));
        }
        i = i + 1;
    }
    proof {
        assert(rest@ =~= old(buf)@.skip(n as int));
    }
    *buf = rest;
}

impl RespFrame {
    /// Number of bytes the next complete frame in `buf` occupies.
    pub fn expect_length(buf: &[u8]) -> (r: Result<usize, RespError>)
        ensures
            crate::respv2::parser_len::scan_result_matches(scan_frame_s(buf@), r),
            r is Ok ==> r->Ok_0 <= buf@.len() && r->Ok_0 >= 3,
    {
        proof {
            assert(buf@.skip(0) =~= buf@);
        }
        scan_frame(buf, 0)
    }

    /// Decodes one frame from the head of `buf`, consuming exactly the bytes
    /// it occupies.  On an error the buffer is left unchanged; in particular
    /// on `NotCompleted` the caller can retry once more bytes arrive.
    pub fn decode(buf: &mut Vec<u8>) -> (r: Result<RespFrame, RespError>)
        ensures
            match r {
                Result::Ok(f) => (match parse_frame_s(old(buf)@) {
                    SpecParse::Done(fv, m) => f@ == fv && final(buf)@ == old(buf)@.skip(m),
                    _ => false,
                }),
                Result::Err(e) => final(buf)@ == old(buf)@ && match e {
                    RespError::NotCompleted => parse_frame_s(old(buf)@) is Incomplete,
                    _ => parse_frame_s(old(buf)@) is Invalid,
                },
            },
    {
        match parse_frame(buf.as_slice()) {
            Result::Ok(p) => {
                let (f, m) = p;
                drain_front(buf, m);
                Ok(f)
            },
            Result::Err(e) => Err(e),
        }
    }
}

} // verus!
