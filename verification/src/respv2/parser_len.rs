//! The executable length scanner: how many bytes the next complete frame
//! occupies, without materializing it.  Proved against `scan_frame_s`.

use vstd::prelude::*;

use crate::resp::decode::find_crlf_from;
use crate::resp::decode::parse_i64_token;
use crate::resp::err::RespError;
use crate::resp::wire::SpecScan;
use crate::resp::wire::first_crlf;
use crate::resp::wire::lemma_first_crlf_shift;
use crate::resp::wire::scan_els;
use crate::resp::wire::scan_entries;
use crate::resp::wire::scan_frame_s;

verus! {

/// Shifts a scan outcome by `d` consumed bytes.
pub open spec fn lift_scan(r: SpecScan, d: int) -> SpecScan {
    match r {
        SpecScan::Done(m) => SpecScan::Done(d + m),
        SpecScan::Incomplete => SpecScan::Incomplete,
        SpecScan::Invalid => SpecScan::Invalid,
    }
}

/// The outcome `r` reports of a byte sequence whose scan is `s`.
pub open spec fn scan_result_matches(s: SpecScan, r: Result<usize, RespError>) -> bool {
    match r {
        Result::Ok(n) => s == SpecScan::Done(n as int),
        Result::Err(e) => match e {
            RespError::NotCompleted => s is Incomplete,
            _ => s is Invalid,
        },
    }
}

/// Length of the frame starting at `from`, as the scanner spec gives it.
pub(crate) fn scan_frame(buf: &[u8], from: usize) -> (r: Result<usize, RespError>)
    requires
        from <= buf@.len(),
    ensures
        scan_result_matches(scan_frame_s(buf@.skip(from as int)), r),
        r is Ok ==> from + r->Ok_0 <= buf@.len() && r->Ok_0 >= 3,
    decreases buf@.len() - from, 0nat, 0nat,
{
    let ghost sfx = buf@.skip(from as int);
    let n_buf = buf.len();
    if from == n_buf {
        proof {
            assert(sfx.len() == 0);
        }
        return Err(RespError::NotCompleted);
    }
    let b = buf[from];
    proof {
        assert(sfx[0] == buf@[from as int]);
        assert(sfx.len() == buf@.len() - from);
    }
    if b == 43 || b == 45 || b == 58 || b == 35 || b == 95 || b == 44 {
        // one-line frames
        match find_crlf_from(buf, from + 1) {
            Option::None => {
                proof {
                    lemma_first_crlf_shift(buf@, from as int, 1);
                }
                Err(RespError::NotCompleted)
            },
            Option::Some(e) => {
                proof {
                    lemma_first_crlf_shift(buf@, from as int, 1);
                    assert(first_crlf(sfx, 1) == Some(e - from));
                }
                Ok(e + 2 - from)
            },
        }
    } else if b == 36 {
        // bulk string
        match find_crlf_from(buf, from + 1) {
            Option::None => {
                proof {
                    lemma_first_crlf_shift(buf@, from as int, 1);
                }
                Err(RespError::NotCompleted)
            },
            Option::Some(e) => {
                proof {
                    lemma_first_crlf_shift(buf@, from as int, 1);
                    assert(first_crlf(sfx, 1) == Some(e - from));
                    assert(sfx.subrange(1, e - from) =~= buf@.subrange(from + 1, e as int));
                }
                match parse_i64_token(buf, from + 1, e) {
                    Option::None => Err(RespError::ParseIntError),
                    Option::Some(v) => {
                        if v == -1 {
                            Ok(e + 2 - from)
                        } else if v < -1 {
                            Err(RespError::InvalidFrame(Vec::new()))
                        } else {
                            let rem = n_buf - (e + 2);
                            if (rem as u64) < (v as u64) + 2 {
                                Err(RespError::NotCompleted)
                            } else {
                                Ok(e + 2 - from + (v as usize) + 2)
                            }
                        }
                    },
                }
            },
        }
    } else if b == 42 || b == 126 {
        // array / set
        match find_crlf_from(buf, from + 1) {
            Option::None => {
                proof {
                    lemma_first_crlf_shift(buf@, from as int, 1);
                }
                Err(RespError::NotCompleted)
            },
            Option::Some(e) => {
                proof {
                    lemma_first_crlf_shift(buf@, from as int, 1);
                    assert(first_crlf(sfx, 1) == Some(e - from));
                    assert(sfx.subrange(1, e - from) =~= buf@.subrange(from + 1, e as int));
                }
                match parse_i64_token(buf, from + 1, e) {
                    Option::None => Err(RespError::ParseIntError),
                    Option::Some(v) => {
                        if v == -1 && b == 42 {
                            Ok(e + 2 - from)
                        } else if v < 0 {
                            Err(RespError::InvalidFrame(Vec::new()))
                        } else {
                            proof {
                                assert(sfx.skip(e - from + 2) =~= buf@.skip(e + 2));
                            }
                            match scan_els_exec(buf, e + 2, v as u64) {
                                Result::Ok(m) => Ok(e + 2 - from + m),
                                Result::Err(x) => Err(x),
                            }
                        }
                    },
                }
            },
        }
    } else if b == 37 {
        // map
        match find_crlf_from(buf, from + 1) {
            Option::None => {
                proof {
                    lemma_first_crlf_shift(buf@, from as int, 1);
                }
                Err(RespError::NotCompleted)
            },
            Option::Some(e) => {
                proof {
                    lemma_first_crlf_shift(buf@, from as int, 1);
                    assert(first_crlf(sfx, 1) == Some(e - from));
                    assert(sfx.subrange(1, e - from) =~= buf@.subrange(from + 1, e as int));
                }
                match parse_i64_token(buf, from + 1, e) {
                    Option::None => Err(RespError::ParseIntError),
                    Option::Some(v) => {
                        if v < 1 {
                            Err(RespError::InvalidFrame(Vec::new()))
                        } else {
                            proof {
                                assert(sfx.skip(e - from + 2) =~= buf@.skip(e + 2));
                            }
                            match scan_entries_exec(buf, e + 2, v as u64) {
                                Result::Ok(m) => Ok(e + 2 - from + m),
                                Result::Err(x) => Err(x),
                            }
                        }
                    },
                }
            },
        }
    } else {
        Err(RespError::InvalidFrameType(Vec::new()))
    }
}

/// Total length of `n` consecutive frames starting at `from`.
pub(crate) fn scan_els_exec(buf: &[u8], from: usize, n: u64) -> (r: Result<usize, RespError>)
    requires
        from <= buf@.len(),
    ensures
        scan_result_matches(scan_els(buf@.skip(from as int), n as nat), r),
        r is Ok ==> from + r->Ok_0 <= buf@.len(),
    decreases buf@.len() - from, n, 1nat,
{
    let ghost sfx0 = buf@.skip(from as int);
    let n_buf = buf.len();
    let mut pos: usize = from;
    let mut i: u64 = 0;
    while i < n
        invariant
            from <= pos <= buf@.len(),
            i <= n,
            n_buf == buf@.len(),
            sfx0 == buf@.skip(from as int),
            scan_els(sfx0, n as nat) == lift_scan(
                scan_els(buf@.skip(pos as int), (n - i) as nat),
                pos - from,
            ),
        decreases n - i,
    {
        let ghost cur = buf@.skip(pos as int);
        match scan_frame(buf, pos) {
            Result::Ok(k) => {
                proof {
                    assert(pos + k <= buf@.len());
                    assert(cur.skip(k as int) =~= buf@.skip(pos + k));
                }
                pos = pos + k;
                i = i + 1;
            },
            Result::Err(x) => {
                return Err(x);
            },
        }
    }
    Ok(pos - from)
}

/// Total length of `n` consecutive key/value entries starting at `from`.
pub(crate) fn scan_entries_exec(buf: &[u8], from: usize, n: u64) -> (r: Result<usize, RespError>)
    requires
        from <= buf@.len(),
    ensures
        scan_result_matches(scan_entries(buf@.skip(from as int), n as nat), r),
        r is Ok ==> from + r->Ok_0 <= buf@.len(),
    decreases buf@.len() - from, n, 1nat,
{
    let ghost sfx0 = buf@.skip(from as int);
    let n_buf = buf.len();
    let mut pos: usize = from;
    let mut i: u64 = 0;
    while i < n
        invariant
            from <= pos <= buf@.len(),
            i <= n,
            n_buf == buf@.len(),
            sfx0 == buf@.skip(from as int),
            scan_entries(sfx0, n as nat) == lift_scan(
                scan_entries(buf@.skip(pos as int), (n - i) as nat),
                pos - from,
            ),
        decreases n - i,
    {
        let ghost cur = buf@.skip(pos as int);
        // the key must be a simple string line
        if pos == n_buf {
            proof {
                assert(cur.len() == 0);
            }
            return Err(RespError::NotCompleted);
        }
        proof {
            assert(cur[0] == buf@[pos as int]);
        }
        if buf[pos] != 43 {
            return Err(RespError::InvalidFrameType(Vec::new()));
        }
        match find_crlf_from(buf, pos + 1) {
            Option::None => {
                proof {
                    lemma_first_crlf_shift(buf@, pos as int, 1);
                }
                return Err(RespError::NotCompleted);
            },
            Option::Some(e) => {
                proof {
                    lemma_first_crlf_shift(buf@, pos as int, 1);
                    assert(first_crlf(cur, 1) == Some(e - pos));
                    assert(cur.skip(e - pos + 2) =~= buf@.skip(e + 2));
                }
                // the value frame
                let ghost vcur = buf@.skip(e + 2);
                match scan_frame(buf, e + 2) {
                    Result::Err(x) => {
                        return Err(x);
                    },
                    Result::Ok(k) => {
                        proof {
                            assert(vcur.skip(k as int) =~= buf@.skip(e + 2 + k));
                        }
                        pos = e + 2 + k;
                        i = i + 1;
                    },
                }
            },
        }
    }
    Ok(pos - from)
}

/// Number of bytes the next complete frame at the head of `input` occupies;
/// `NotCompleted` when `input` is a proper prefix of a frame, an invalid
/// error when no extension of `input` is a frame.
pub fn parse_frame_length(input: &[u8]) -> (r: Result<usize, RespError>)
    ensures
        scan_result_matches(scan_frame_s(input@), r),
        r is Ok ==> r->Ok_0 <= input@.len() && r->Ok_0 >= 3,
{
    proof {
        assert(input@.skip(0) =~= input@);
    }
    scan_frame(input, 0)
}

} // verus!
