//! Executable RESP encoders, proved to emit exactly `encode_frame` of the
//! value's model.

use vstd::prelude::*;

use crate::resp::frame::Double;
use crate::resp::frame::BulkString;
use crate::resp::frame::RespArray;
use crate::resp::frame::RespFrame;
use crate::resp::frame::RespMap;
use crate::resp::frame::RespNull;
use crate::resp::frame::RespSet;
use crate::resp::frame::SimpleError;
use crate::resp::frame::SimpleString;
use crate::resp::frame::frame_view;
use crate::resp::frame::frames_view;
use crate::resp::frame::entries_view;
use crate::resp::frame::lemma_frames_view_index;
use crate::resp::frame::lemma_frames_view_len;
use crate::resp::frame::lemma_entries_view_index;
use crate::resp::frame::lemma_entries_view_len;
use crate::resp::wire::FrameV;
use crate::resp::wire::CR;
use crate::resp::wire::LF;
use crate::resp::wire::dec_digits;
use crate::resp::wire::dec_int;
use crate::resp::wire::encode_els;
use crate::resp::wire::encode_entries;
use crate::resp::wire::encode_frame;
use crate::resp::wire::lemma_encode_els_take;
use crate::resp::wire::lemma_encode_entries_take;
use crate::resp::wire::spec_crlf;

verus! {

/// A value with a frame model that can serialize itself to wire bytes.
pub trait RespEncode {
    /// The frame this value stands for.
    spec fn resp_view(&self) -> FrameV;

    /// Emits exactly the wire encoding of the value's frame.
    fn encode(self) -> (r: Vec<u8>)
        ensures
            r@ == encode_frame(self.resp_view()),
    ;
}

/// Appends CRLF.
fn push_crlf(buf: &mut Vec<u8>)
    ensures
        final(buf)@ == old(buf)@ + spec_crlf(),
{
    buf.push(CR);
    buf.push(LF);
    proof {
        assert(buf@ =~= old(buf)@ + spec_crlf());
    }
}

/// Appends a copy of `data`.
fn push_bytes(buf: &mut Vec<u8>, data: &Vec<u8>)
    ensures
        final(buf)@ == old(buf)@ + data@,
{
    let n = data.len();
    let mut j: usize = 0;
    while j < n
        invariant
            n == data.len(),
            j <= n,
            buf@ == old(buf)@ + data@.take(j as int),
        decreases n - j,
    {
        buf.push(data[j]);
        proof {
            assert(buf@ =~= old(buf)@ + data@.take(j + 1));
        }
        j = j + 1;
    }
    proof {
        assert(data@.take(n as int) =~= data@);
    }
}

/// Canonical decimal digits of `n`.
pub(crate) fn u64_dec(n: u64) -> (r: Vec<u8>)
    ensures
        r@ == dec_digits(n as nat),
    decreases n,
{
    if n < 10 {
        let mut v: Vec<u8> = Vec::new();
        v.push(48 + n as u8);
        proof {
            assert(v@ =~= dec_digits(n as nat));
        }
        v
    } else {
        let mut v = u64_dec(n / 10);
        v.push(48 + (n % 10) as u8);
        proof {
            assert(v@ =~= dec_digits((n / 10) as nat).push((48 + (n as nat) % 10) as u8));
        }
        v
    }
}

/// Canonical decimal form of `i`, signed.
fn i64_dec(i: i64) -> (r: Vec<u8>)
    ensures
        r@ == dec_int(i as int),
{
    if i >= 0 {
        u64_dec(i as u64)
    } else {
        let mag: u64 = if i == -9223372036854775808i64 {
            9223372036854775808u64
        } else {
            (-i) as u64
        };
        let mut v: Vec<u8> = Vec::new();
        v.push(45u8);
        let d = u64_dec(mag);
        push_bytes(&mut v, &d);
        proof {
            assert(v@ =~= seq![45u8] + dec_digits(mag as nat));
        }
        v
    }
}

/// Appends the wire encoding of `f`.
fn encode_frame_to(f: &RespFrame, buf: &mut Vec<u8>)
    ensures
        final(buf)@ == old(buf)@ + encode_frame(f@),
    decreases *f,
{
    match f {
        RespFrame::SimpleString(s) => {
            buf.push(43u8);
            push_bytes(buf, &s.0);
            push_crlf(buf);
            proof {
                assert(buf@ =~= old(buf)@ + encode_frame(f@));
            }
        },
        RespFrame::Error(s) => {
            buf.push(45u8);
            push_bytes(buf, &s.0);
            push_crlf(buf);
            proof {
                assert(buf@ =~= old(buf)@ + encode_frame(f@));
            }
        },
        RespFrame::Null(_) => {
            buf.push(95u8);
            push_crlf(buf);
            proof {
                assert(buf@ =~= old(buf)@ + encode_frame(f@));
            }
        },
        RespFrame::Integer(i) => {
            buf.push(58u8);
            let d = i64_dec(*i);
            push_bytes(buf, &d);
            push_crlf(buf);
            proof {
                assert(buf@ =~= old(buf)@ + encode_frame(f@));
            }
        },
        RespFrame::Boolean(b) => {
            buf.push(35u8);
            buf.push(if *b { 116u8 } else { 102u8 });
            push_crlf(buf);
            proof {
                assert(buf@ =~= old(buf)@ + encode_frame(f@));
            }
        },
        RespFrame::Double(t) => {
            buf.push(44u8);
            push_bytes(buf, &t.0);
            push_crlf(buf);
            proof {
                assert(buf@ =~= old(buf)@ + encode_frame(f@));
            }
        },
        RespFrame::BulkString(b) => match &b.0 {
            Option::None => {
                buf.push(36u8);
                buf.push(45u8);
                buf.push(49u8);
                push_crlf(buf);
                proof {
                    assert(buf@ =~= old(buf)@ + encode_frame(f@));
                }
            },
            Option::Some(d) => {
                buf.push(36u8);
                let n = u64_dec(d.len() as u64);
                push_bytes(buf, &n);
                push_crlf(buf);
                push_bytes(buf, d);
                push_crlf(buf);
                proof {
                    assert(buf@ =~= old(buf)@ + encode_frame(f@));
                }
            },
        },
        RespFrame::Array(a) => match &a.0 {
            Option::None => {
                buf.push(42u8);
                buf.push(45u8);
                buf.push(49u8);
                push_crlf(buf);
                proof {
                    assert(buf@ =~= old(buf)@ + encode_frame(f@));
                }
            },
            Option::Some(v) => {
                buf.push(42u8);
                let n = u64_dec(v.len() as u64);
                push_bytes(buf, &n);
                push_crlf(buf);
                proof {
                    lemma_frames_view_len(v@);
                }
                encode_els_to(v, buf);
                proof {
                    assert(buf@ =~= old(buf)@ + encode_frame(f@));
                }
            },
        },
        RespFrame::Uniq(s) => {
            buf.push(126u8);
            let n = u64_dec(s.0.len() as u64);
            push_bytes(buf, &n);
            push_crlf(buf);
            proof {
                lemma_frames_view_len(s.0@);
            }
            encode_els_to(&s.0, buf);
            proof {
                assert(buf@ =~= old(buf)@ + encode_frame(f@));
            }
        },
        RespFrame::Dict(m) => {
            buf.push(37u8);
            let n = u64_dec(m.0.len() as u64);
            push_bytes(buf, &n);
            push_crlf(buf);
            proof {
                lemma_entries_view_len(m.0@);
            }
            encode_entries_to(&m.0, buf);
            proof {
                assert(buf@ =~= old(buf)@ + encode_frame(f@));
            }
        },
    }
}

/// Appends the concatenated encodings of all map entries in `v`.
fn encode_entries_to(v: &Vec<(Vec<u8>, RespFrame)>, buf: &mut Vec<u8>)
    ensures
        final(buf)@ == old(buf)@ + encode_entries(entries_view(v@)),
    decreases v@,
{
    let k = v.len();
    let mut i: usize = 0;
    proof {
        lemma_entries_view_len(v@);
        assert(entries_view(v@).take(0) =~= Seq::<(Seq<u8>, FrameV)>::empty());
    }
    while i < k
        invariant
            k == v.len(),
            i <= k,
            entries_view(v@).len() == k,
            buf@ == old(buf)@ + encode_entries(entries_view(v@).take(i as int)),
        decreases k - i,
    {
        proof {
            lemma_entries_view_index(v@, i as int);
        }
        buf.push(43u8);
        push_bytes(buf, &v[i].0);
        push_crlf(buf);
        encode_frame_to(&v[i].1, buf);
        proof {
            lemma_encode_entries_take(entries_view(v@), i as int);
            assert(buf@ =~= old(buf)@ + encode_entries(entries_view(v@).take(i + 1)));
        }
        i = i + 1;
    }
    proof {
        assert(entries_view(v@).take(k as int) =~= entries_view(v@));
    }
}

/// Appends the concatenated encodings of all frames in `v`.
fn encode_els_to(v: &Vec<RespFrame>, buf: &mut Vec<u8>)
    ensures
        final(buf)@ == old(buf)@ + encode_els(frames_view(v@)),
    decreases v@,
{
    let n = v.len();
    let mut i: usize = 0;
    proof {
        lemma_frames_view_len(v@);
        assert(frames_view(v@).take(0) =~= Seq::<FrameV>::empty());
    }
    while i < n
        invariant
            n == v.len(),
            i <= n,
            frames_view(v@).len() == n,
            buf@ == old(buf)@ + encode_els(frames_view(v@).take(i as int)),
        decreases n - i,
    {
        proof {
            lemma_frames_view_index(v@, i as int);
        }
        encode_frame_to(&v[i], buf);
        proof {
            lemma_encode_els_take(frames_view(v@), i as int);
            assert(buf@ =~= old(buf)@ + encode_els(frames_view(v@).take(i + 1)));
        }
        i = i + 1;
    }
    proof {
        assert(frames_view(v@).take(n as int) =~= frames_view(v@));
    }
}

impl RespEncode for RespFrame {
    open spec fn resp_view(&self) -> FrameV {
        frame_view(*self)
    }

    fn encode(self) -> (r: Vec<u8>) {
        let mut buf: Vec<u8> = Vec::new();
        encode_frame_to(&self, &mut buf);
        proof {
            assert(buf@ =~= encode_frame(self@));
        }
        buf
    }
}

impl RespEncode for SimpleString {
    open spec fn resp_view(&self) -> FrameV {
        FrameV::SimpleString(self@)
    }

    fn encode(self) -> (r: Vec<u8>) {
        let mut buf: Vec<u8> = Vec::new();
        encode_frame_to(&RespFrame::SimpleString(self), &mut buf);
        buf
    }
}

impl RespEncode for SimpleError {
    open spec fn resp_view(&self) -> FrameV {
        FrameV::Error(self@)
    }

    fn encode(self) -> (r: Vec<u8>) {
        let mut buf: Vec<u8> = Vec::new();
        encode_frame_to(&RespFrame::Error(self), &mut buf);
        buf
    }
}

impl RespEncode for i64 {
    open spec fn resp_view(&self) -> FrameV {
        FrameV::Integer(*self as int)
    }

    fn encode(self) -> (r: Vec<u8>) {
        let mut buf: Vec<u8> = Vec::new();
        encode_frame_to(&RespFrame::Integer(self), &mut buf);
        buf
    }
}

impl RespEncode for bool {
    open spec fn resp_view(&self) -> FrameV {
        FrameV::Boolean(*self)
    }

    fn encode(self) -> (r: Vec<u8>) {
        let mut buf: Vec<u8> = Vec::new();
        encode_frame_to(&RespFrame::Boolean(self), &mut buf);
        buf
    }
}

impl RespEncode for BulkString {
    open spec fn resp_view(&self) -> FrameV {
        FrameV::BulkString(self@)
    }

    fn encode(self) -> (r: Vec<u8>) {
        let mut buf: Vec<u8> = Vec::new();
        encode_frame_to(&RespFrame::BulkString(self), &mut buf);
        buf
    }
}

impl RespEncode for RespNull {
    open spec fn resp_view(&self) -> FrameV {
        FrameV::Null
    }

    fn encode(self) -> (r: Vec<u8>) {
        let mut buf: Vec<u8> = Vec::new();
        encode_frame_to(&RespFrame::Null(self), &mut buf);
        buf
    }
}

impl RespEncode for Double {
    open spec fn resp_view(&self) -> FrameV {
        FrameV::Double(self@)
    }

    fn encode(self) -> (r: Vec<u8>) {
        let mut buf: Vec<u8> = Vec::new();
        encode_frame_to(&RespFrame::Double(self), &mut buf);
        buf
    }
}

impl RespEncode for RespArray {
    open spec fn resp_view(&self) -> FrameV {
        FrameV::Array(self@)
    }

    fn encode(self) -> (r: Vec<u8>) {
        let mut buf: Vec<u8> = Vec::new();
        encode_frame_to(&RespFrame::Array(self), &mut buf);
        buf
    }
}

impl RespEncode for RespMap {
    open spec fn resp_view(&self) -> FrameV {
        FrameV::Dict(self@)
    }

    fn encode(self) -> (r: Vec<u8>) {
        let mut buf: Vec<u8> = Vec::new();
        encode_frame_to(&RespFrame::Dict(self), &mut buf);
        buf
    }
}

impl RespEncode for RespSet {
    open spec fn resp_view(&self) -> FrameV {
        FrameV::Uniq(self@)
    }

    fn encode(self) -> (r: Vec<u8>) {
        let mut buf: Vec<u8> = Vec::new();
        encode_frame_to(&RespFrame::Uniq(self), &mut buf);
        buf
    }
}

} // verus!
