//! Low-level decoding helpers: CRLF search and decimal-token parsing.

use vstd::prelude::*;

use crate::resp::wire::CR;
use crate::resp::wire::LF;
use crate::resp::wire::all_digits;
use crate::resp::wire::crlf_at;
use crate::resp::wire::digits_val;
use crate::resp::wire::first_crlf;
use crate::resp::wire::digit_run;
use crate::resp::wire::in_i64;
use crate::resp::wire::is_decimal_from;
use crate::resp::wire::is_double_token;
use crate::resp::wire::is_exponent_from;
use crate::resp::wire::parse_int_token;
use crate::resp::wire::parse_frame_s;
use crate::resp::wire::SpecParse;
use crate::resp::wire::FrameV;
use crate::resp::err::RespError;
use crate::resp::frame::Double;
use crate::resp::frame::BulkString;
use crate::resp::frame::RespArray;
use crate::resp::frame::RespFrame;
use crate::resp::frame::RespMap;
use crate::resp::frame::RespNull;
use crate::resp::frame::RespSet;
use crate::resp::frame::SimpleError;
use crate::resp::frame::SimpleString;

verus! {

/// Index of the `nth` CRLF pair (1-based) at or after `from`; pairs may
/// overlap a previous pair's LF.
pub open spec fn nth_crlf(s: Seq<u8>, nth: int, from: int) -> Option<int>
    decreases s.len() - from,
{
    if from < 0 || from + 2 > s.len() {
        None
    } else if s[from] == CR && s[from + 1] == LF {
        if nth == 1 {
            Some(from)
        } else {
            nth_crlf(s, nth - 1, from + 1)
        }
    } else {
        nth_crlf(s, nth, from + 1)
    }
}

/// Position of the `nth` CRLF pair of `buf`, counting from 1.
pub fn find_crlf(buf: &[u8], nth: i32) -> (r: Option<usize>)
    ensures
        match r {
            Option::Some(e) => nth_crlf(buf@, nth as int, 0) == Some(e as int),
            Option::None => nth_crlf(buf@, nth as int, 0) == None::<int>,
        },
{
    let n = buf.len();
    let mut count = nth;
    let mut i: usize = 0;
    while i < n && i + 1 < n
        invariant
            n == buf@.len(),
            0 <= i,
            nth_crlf(buf@, nth as int, 0) == nth_crlf(buf@, count as int, i as int),
            nth as int >= count as int,
        decreases n - i,
    {
        if buf[i] == CR && buf[i + 1] == LF {
            if count == 1 {
                return Some(i);
            }
            if count > i32::MIN {
                count = count - 1;
            } else {
                proof {
                    lemma_nth_crlf_low(buf@, count as int, i as int);
                }
                return None;
            }
        }
        i = i + 1;
    }
    None
}

/// With `nth` below 1 the search never succeeds.
proof fn lemma_nth_crlf_low(s: Seq<u8>, nth: int, from: int)
    requires
        nth < 1,
    ensures
        nth_crlf(s, nth, from) == None::<int>,
    decreases s.len() - from,
{
    if !(from < 0 || from + 2 > s.len()) {
        if s[from] == CR && s[from + 1] == LF {
            lemma_nth_crlf_low(s, nth - 1, from + 1);
        } else {
            lemma_nth_crlf_low(s, nth, from + 1);
        }
    }
}

/// First CRLF pair of `buf` at or after `from`.
pub fn find_crlf_from(buf: &[u8], from: usize) -> (r: Option<usize>)
    ensures
        match r {
            Option::Some(e) => first_crlf(buf@, from as int) == Some(e as int) && from <= e && e
                + 2 <= buf@.len(),
            Option::None => first_crlf(buf@, from as int) == None::<int>,
        },
{
    let n = buf.len();
    let mut i: usize = from;
    while i < n && i + 1 < n
        invariant
            n == buf@.len(),
            from <= i,
            first_crlf(buf@, from as int) == first_crlf(buf@, i as int),
        decreases n - i,
    {
        if buf[i] == CR && buf[i + 1] == LF {
            return Some(i);
        }
        i = i + 1;
    }
    None
}

/// Parses the decimal token `buf[start..end]` as a 64-bit signed integer.
/// `None` when the token is malformed or its value does not fit.
pub fn parse_i64_token(buf: &[u8], start: usize, end: usize) -> (r: Option<i64>)
    requires
        start <= end <= buf@.len(),
    ensures
        ({
            let t = buf@.subrange(start as int, end as int);
            match r {
                Option::Some(v) => parse_int_token(t) == Some(v as int),
                Option::None => match parse_int_token(t) {
                    Option::Some(w) => !in_i64(w),
                    Option::None => true,
                },
            }
        }),
{
    let ghost t = buf@.subrange(start as int, end as int);
    if end == start {
        proof {
            assert(!all_digits(t));
        }
        return None;
    }
    let first = buf[start];
    let neg: bool = first == 45;
    let ds: usize = if first == 45 || first == 43 {
        start + 1
    } else {
        start
    };
    let ghost dt = buf@.subrange(ds as int, end as int);
    proof {
        assert(t.len() == end - start);
        assert(t[0] == buf@[start as int]);
        if ds > start {
            assert(t.skip(1) =~= dt);
        } else {
            assert(t =~= dt);
        }
    }
    if ds == end {
        proof {
            assert(!all_digits(dt));
        }
        return None;
    }
    let mut acc: u64 = 0;
    let mut over: bool = false;
    let mut i: usize = ds;
    while i < end
        invariant
            ds <= i <= end <= buf@.len(),
            start < end,
            start <= ds <= end,
            ds == start || ds == start + 1,
            ds < end,
            t == buf@.subrange(start as int, end as int),
            dt == buf@.subrange(ds as int, end as int),
            ds == start + 1 ==> t.skip(1) == dt,
            ds == start ==> t == dt,
            neg ==> t[0] == 45,
            ds == start + 1 && !neg ==> t[0] == 43,
            ds == start ==> t[0] != 45 && t[0] != 43,
            forall|j: int| ds <= j < i ==> 48 <= #[trigger] buf@[j] <= 57,
            !over ==> acc as nat == digits_val(buf@.subrange(ds as int, i as int)),
            over ==> digits_val(buf@.subrange(ds as int, i as int)) > u64::MAX as nat,
        decreases end - i,
    {
        let b = buf[i];
        if b < 48 || b > 57 {
            proof {
                assert(dt[i as int - ds as int] == buf@[i as int]);
                assert(!all_digits(dt));
                assert(parse_int_token(t) is None);
            }
            return None;
        }
        let d: u64 = (b - 48) as u64;
        proof {
            assert(buf@.subrange(ds as int, i + 1).drop_last() =~= buf@.subrange(
                ds as int,
                i as int,
            ));
            assert(buf@.subrange(ds as int, i + 1).last() == buf@[i as int]);
        }
        if !over {
            match acc.checked_mul(10) {
                Option::Some(x) => match x.checked_add(d) {
                    Option::Some(y) => {
                        acc = y;
                    },
                    Option::None => {
                        over = true;
                    },
                },
                Option::None => {
                    over = true;
                },
            }
        } else {
            proof {
                let prev = digits_val(buf@.subrange(ds as int, i as int));
                let next = digits_val(buf@.subrange(ds as int, i + 1));
                assert(next == prev * 10 + (b - 48) as nat);
                assert(prev * 10 >= prev) by (nonlinear_arith)
                    requires
                        prev >= 0,
                ;
            }
        }
        i = i + 1;
    }
    proof {
        assert(buf@.subrange(ds as int, end as int) =~= dt);
        assert(all_digits(dt));
    }
    if over {
        return None;
    }
    if neg {
        if acc > 9223372036854775808u64 {
            return None;
        }
        if acc == 9223372036854775808u64 {
            Some(-9223372036854775808i64)
        } else {
            Some(-(acc as i64))
        }
    } else {
        if acc > 9223372036854775807u64 {
            return None;
        }
        Some(acc as i64)
    }
}


/// Copies `buf[start..end]` into a fresh vector.
pub fn copy_range(buf: &[u8], start: usize, end: usize) -> (r: Vec<u8>)
    requires
        start <= end <= buf@.len(),
    ensures
        r@ == buf@.subrange(start as int, end as int),
{
    let mut r: Vec<u8> = Vec::new();
    let mut i: usize = start;
    while i < end
        invariant
            start <= i <= end <= buf@.len(),
            r@ == buf@.subrange(start as int, i as int),
        decreases end - i,
    {
        r.push(buf[i]);
        proof {
            assert(r@ =~= buf@.subrange(start as int, i + 1));
        }
        i = i + 1;
    }
    r
}

/// Length of the digit run of `t` starting at `from`.
fn digit_run_exec(t: &Vec<u8>, from: usize) -> (r: usize)
    requires
        from <= t@.len(),
    ensures
        r == digit_run(t@, from as int),
        from + r <= t@.len(),
{
    let n = t.len();
    let mut i: usize = from;
    while i < n && 48 <= t[i] && t[i] <= 57
        invariant
            from <= i <= n == t@.len(),
            digit_run(t@, from as int) == (i - from) + digit_run(t@, i as int),
        decreases n - i,
    {
        i = i + 1;
    }
    i - from
}

/// Decides `is_exponent_from`.
fn is_exponent_exec(t: &Vec<u8>, from: usize) -> (r: bool)
    requires
        from <= t@.len(),
    ensures
        r == is_exponent_from(t@, from as int),
{
    let n = t.len();
    if from >= n {
        return false;
    }
    if t[from] != 101 && t[from] != 69 {
        return false;
    }
    let rs: usize = if from + 1 < n && (t[from + 1] == 43 || t[from + 1] == 45) {
        from + 2
    } else {
        from + 1
    };
    if rs > n {
        proof {
            assert(digit_run(t@, rs as int) == 0);
        }
        return false;
    }
    let d = digit_run_exec(t, rs);
    d > 0 && rs + d == n
}

/// Decides `is_decimal_from`.
fn is_decimal_exec(t: &Vec<u8>, from: usize) -> (r: bool)
    requires
        from <= t@.len(),
    ensures
        r == is_decimal_from(t@, from as int),
{
    let n = t.len();
    let d1 = digit_run_exec(t, from);
    if d1 == 0 {
        return false;
    }
    let p = from + d1;
    if p == n {
        return true;
    }
    if t[p] == 46 {
        let d2 = digit_run_exec(t, p + 1);
        if d2 == 0 {
            return false;
        }
        let q = p + 1 + d2;
        if q == n {
            true
        } else {
            is_exponent_exec(t, q)
        }
    } else {
        is_exponent_exec(t, p)
    }
}

/// Decides whether `t` is a valid double token.
pub fn is_double_token_exec(t: &Vec<u8>) -> (r: bool)
    ensures
        r == is_double_token(t@),
{
    let n = t.len();
    let u: usize = if n > 0 && (t[0] == 43 || t[0] == 45) {
        1
    } else {
        0
    };
    proof {
        assert(t@.skip(u as int).len() == n - u);
        if n >= u + 3 {
            assert(t@.skip(u as int)[0] == t@[u as int]);
            assert(t@.skip(u as int)[1] == t@[u as int + 1]);
            assert(t@.skip(u as int)[2] == t@[u as int + 2]);
        }
    }
    let is_inf = n == u + 3 && t[u] == 105 && t[u + 1] == 110 && t[u + 2] == 102;
    let is_nan = n == u + 3 && t[u] == 110 && t[u + 1] == 97 && t[u + 2] == 110;
    proof {
        if is_inf {
            assert(t@.skip(u as int) =~= seq![105u8, 110u8, 102u8]);
        } else {
            assert(!(t@.skip(u as int) =~= seq![105u8, 110u8, 102u8]));
        }
        if is_nan {
            assert(t@.skip(u as int) =~= seq![110u8, 97u8, 110u8]);
        } else {
            assert(!(t@.skip(u as int) =~= seq![110u8, 97u8, 110u8]));
        }
    }
    if is_inf || is_nan {
        return true;
    }
    is_decimal_exec(t, u)
}


/// Locates the payload of a one-line frame: checks the type prefix and
/// finds the terminating CRLF, whose index it returns.
pub fn extract_simple_frame_data(buf: &[u8], prefix: u8) -> (r: Result<usize, RespError>)
    ensures
        match r {
            Result::Ok(e) => buf@.len() >= 1 && buf@[0] == prefix && first_crlf(buf@, 1)
                == Some(e as int),
            Result::Err(e2) => match e2 {
                RespError::NotCompleted => buf@.len() == 0 || (buf@[0] == prefix && first_crlf(
                    buf@,
                    1,
                ) is None),
                RespError::InvalidFrameType(_) => buf@.len() >= 1 && buf@[0] != prefix,
                _ => false,
            },
        },
{
    if buf.len() == 0 {
        return Err(RespError::NotCompleted);
    }
    if buf[0] != prefix {
        return Err(RespError::InvalidFrameType(Vec::new()));
    }
    match find_crlf_from(buf, 1) {
        Option::Some(e) => Ok(e),
        Option::None => Err(RespError::NotCompleted),
    }
}

/// Checks that the buffer starts with `expect` and consumes it.
pub fn extract_fixed_data(buf: &mut Vec<u8>, expect: &[u8], expect_type: &str) -> (r: Result<
    (),
    RespError,
>)
    ensures
        match r {
            Result::Ok(()) => old(buf)@.len() >= expect@.len() && old(buf)@.take(
                expect@.len() as int,
            ) == expect@ && final(buf)@ == old(buf)@.skip(expect@.len() as int),
            Result::Err(RespError::NotCompleted) => old(buf)@.len() < expect@.len()
                && final(buf)@ == old(buf)@,
            Result::Err(_) => old(buf)@.take(expect@.len() as int) != expect@ && final(buf)@
                == old(buf)@,
        },
{
    let n = expect.len();
    if buf.len() < n {
        return Err(RespError::NotCompleted);
    }
    let mut i: usize = 0;
    while i < n
        invariant
            i <= n == expect@.len(),
            n <= buf@.len(),
            buf@ == old(buf)@,
            forall|j: int| 0 <= j < i ==> buf@[j] == expect@[j],
        decreases n - i,
    {
        if buf[i] != expect[i] {
            proof {
                assert(old(buf)@.take(n as int)[i as int] != expect@[i as int]);
            }
            return Err(RespError::InvalidFrameType(Vec::new()));
        }
        i = i + 1;
    }
    proof {
        assert(old(buf)@.take(n as int) =~= expect@);
    }
    drain_buffer(buf, n);
    Ok(())
}

/// Removes the first `n` bytes of the buffer.
pub(crate) fn drain_buffer(buf: &mut Vec<u8>, n: usize)
    requires
        n <= old(buf)@.len(),
    ensures
        final(buf)@ == old(buf)@.skip(n as int),
{
    let len = buf.len();
    let mut rest: Vec<u8> = Vec::new();
    let mut i: usize = n;
    while i < len
        invariant
            n <= i <= len == buf@.len(),
            buf@ == old(buf)@,
            rest@ == buf@.subrange(n as int, i as int),
        decreases len - i,
    {
        let x = buf[i];
        rest.push(x);
        proof {
            assert(rest@ =~= buf@.subrange(n as int, i + 1));
        }
        i = i + 1;
    }
    proof {
        assert(rest@ =~= old(buf)@.skip(n as int));
    }
    *buf = rest;
}

/// Reads a one-line frame header: the CRLF position and the decimal value
/// of the token after the prefix.
pub fn parse_length(prefix: u8, buf: &[u8]) -> (r: Result<(usize, i64), RespError>)
    ensures
        match r {
            Result::Ok(p) => buf@.len() >= 1 && buf@[0] == prefix && first_crlf(buf@, 1) == Some(
                p.0 as int,
            ) && parse_int_token(buf@.subrange(1, p.0 as int)) == Some(p.1 as int),
            Result::Err(RespError::NotCompleted) => buf@.len() == 0 || (buf@[0] == prefix
                && first_crlf(buf@, 1) is None),
            Result::Err(RespError::ParseIntError) => (match first_crlf(buf@, 1) {
                Option::Some(e) => match parse_int_token(buf@.subrange(1, e)) {
                    Option::Some(w) => !in_i64(w),
                    Option::None => true,
                },
                Option::None => false,
            }),
            Result::Err(_) => buf@.len() >= 1 && buf@[0] != prefix,
        },
{
    let end = match extract_simple_frame_data(buf, prefix) {
        Result::Ok(e) => e,
        Result::Err(e) => {
            return Err(e);
        },
    };
    proof {
        crate::resp::wire::lemma_first_crlf_some(buf@, 1, end as int);
    }
    match parse_i64_token(buf, 1, end) {
        Option::Some(v) => Ok((end, v)),
        Option::None => Err(RespError::ParseIntError),
    }
}

/// Reads a one-line frame header and consumes it from the buffer.
pub fn parse_length_and_move(prefix: u8, buf: &mut Vec<u8>) -> (r: Result<i64, RespError>)
    ensures
        match r {
            Result::Ok(v) => old(buf)@.len() >= 1 && old(buf)@[0] == prefix && (match first_crlf(
                old(buf)@,
                1,
            ) {
                Option::Some(e) => parse_int_token(old(buf)@.subrange(1, e)) == Some(v as int)
                    && final(buf)@ == old(buf)@.skip(e + 2),
                Option::None => false,
            }),
            Result::Err(_) => final(buf)@ == old(buf)@,
        },
{
    let n_buf = buf.len();
    let p = match parse_length(prefix, buf.as_slice()) {
        Result::Ok(p) => p,
        Result::Err(e) => {
            return Err(e);
        },
    };
    proof {
        crate::resp::wire::lemma_first_crlf_some(buf@, 1, p.0 as int);
        assert(p.0 + 2 <= n_buf);
    }
    drain_buffer(buf, p.0 + 2);
    Ok(p.1)
}

/// Total frame length of an aggregate whose header line ends at `end` and
/// announces `len` items: for arrays and sets the items are scanned; for
/// maps, key/value entries; any other prefix stands for a payload of `len`
/// bytes plus the final CRLF.
pub fn cal_total_length(buf: &[u8], end: usize, len: usize, prefix: u8) -> (r: Result<
    usize,
    RespError,
>)
    requires
        end + 2 <= buf@.len(),
        len + 2 <= usize::MAX,
    ensures
        prefix == 42 || prefix == 126 ==> crate::respv2::parser_len::scan_result_matches(
            crate::respv2::parser_len::lift_scan(
                crate::resp::wire::scan_els(buf@.skip(end + 2), len as nat),
                end + 2,
            ),
            r,
        ),
        prefix == 37 ==> crate::respv2::parser_len::scan_result_matches(
            crate::respv2::parser_len::lift_scan(
                crate::resp::wire::scan_entries(buf@.skip(end + 2), len as nat),
                end + 2,
            ),
            r,
        ),
        !(prefix == 42 || prefix == 126 || prefix == 37) ==> r == Result::<
            usize,
            RespError,
        >::Ok((len + 2) as usize),
{
    let n_buf = buf.len();
    if prefix == 42 || prefix == 126 {
        match crate::respv2::parser_len::scan_els_exec(buf, end + 2, len as u64) {
            Result::Ok(m) => Ok(end + 2 + m),
            Result::Err(e) => Err(e),
        }
    } else if prefix == 37 {
        match crate::respv2::parser_len::scan_entries_exec(buf, end + 2, len as u64) {
            Result::Ok(m) => Ok(end + 2 + m),
            Result::Err(e) => Err(e),
        }
    } else {
        Ok(len + 2)
    }
}


impl SimpleString {
    /// Decodes a `+` line from the head of the buffer.
    pub fn decode(buf: &mut Vec<u8>) -> (r: Result<SimpleString, RespError>)
        ensures
            match r {
                Result::Ok(ss) => (match parse_frame_s(old(buf)@) {
                    SpecParse::Done(fv, n) => fv == FrameV::SimpleString(ss@) && final(buf)@
                        == old(buf)@.skip(n),
                    _ => false,
                }),
                Result::Err(e) => final(buf)@ == old(buf)@ && match e {
                    RespError::NotCompleted => parse_frame_s(old(buf)@) is Incomplete,
                    _ => old(buf)@.len() >= 1 && old(buf)@[0] != 43,
                },
            },
    {
        let n_buf = buf.len();
        let end = match extract_simple_frame_data(buf.as_slice(), 43) {
            Result::Ok(e) => e,
            Result::Err(e) => {
                return Err(e);
            },
        };
        proof {
            crate::resp::wire::lemma_first_crlf_some(buf@, 1, end as int);
        }
        let content = copy_range(buf.as_slice(), 1, end);
        drain_buffer(buf, end + 2);
        Ok(SimpleString(content))
    }
}

impl SimpleError {
    /// Decodes a `-` line from the head of the buffer.
    pub fn decode(buf: &mut Vec<u8>) -> (r: Result<SimpleError, RespError>)
        ensures
            match r {
                Result::Ok(se) => (match parse_frame_s(old(buf)@) {
                    SpecParse::Done(fv, n) => fv == FrameV::Error(se@)
                        && final(buf)@ == old(buf)@.skip(n),
                    _ => false,
                }),
                Result::Err(e) => final(buf)@ == old(buf)@ && match e {
                    RespError::NotCompleted => parse_frame_s(old(buf)@) is Incomplete,
                    _ => old(buf)@.len() >= 1 && old(buf)@[0] != 45,
                },
            },
    {
        let n_buf = buf.len();
        let end = match extract_simple_frame_data(buf.as_slice(), 45) {
            Result::Ok(e) => e,
            Result::Err(e) => {
                return Err(e);
            },
        };
        proof {
            crate::resp::wire::lemma_first_crlf_some(buf@, 1, end as int);
        }
        let content = copy_range(buf.as_slice(), 1, end);
        drain_buffer(buf, end + 2);
        Ok(SimpleError(content))
    }
}

impl RespNull {
    /// Decodes the `_` frame from the head of the buffer.
    pub fn decode(buf: &mut Vec<u8>) -> (r: Result<RespNull, RespError>)
        ensures
            match r {
                Result::Ok(_) => (match parse_frame_s(old(buf)@) {
                    SpecParse::Done(fv, n) => fv == FrameV::Null
                        && final(buf)@ == old(buf)@.skip(n),
                    _ => false,
                }),
                Result::Err(e) => final(buf)@ == old(buf)@ && match e {
                    RespError::NotCompleted => parse_frame_s(old(buf)@) is Incomplete,
                    _ => old(buf)@.len() >= 1 && (old(buf)@[0] != 95 || parse_frame_s(old(buf)@)
                        is Invalid),
                },
            },
    {
        let n_buf = buf.len();
        let end = match extract_simple_frame_data(buf.as_slice(), 95) {
            Result::Ok(e) => e,
            Result::Err(e) => {
                return Err(e);
            },
        };
        proof {
            crate::resp::wire::lemma_first_crlf_some(buf@, 1, end as int);
        }
        if end != 1 {
            return Err(RespError::InvalidFrameType(Vec::new()));
        }
        drain_buffer(buf, 3);
        Ok(RespNull)
    }
}

impl Double {
    /// Decodes a `,` line from the head of the buffer, keeping the wire
    /// token.
    pub fn decode(buf: &mut Vec<u8>) -> (r: Result<Double, RespError>)
        ensures
            match r {
                Result::Ok(d) => (match parse_frame_s(old(buf)@) {
                    SpecParse::Done(fv, n) => fv == FrameV::Double(d@)
                        && final(buf)@ == old(buf)@.skip(n),
                    _ => false,
                }),
                Result::Err(e) => final(buf)@ == old(buf)@ && match e {
                    RespError::NotCompleted => parse_frame_s(old(buf)@) is Incomplete,
                    _ => old(buf)@.len() >= 1 && (old(buf)@[0] != 44 || parse_frame_s(old(buf)@)
                        is Invalid),
                },
            },
    {
        let n_buf = buf.len();
        let end = match extract_simple_frame_data(buf.as_slice(), 44) {
            Result::Ok(e) => e,
            Result::Err(e) => {
                return Err(e);
            },
        };
        proof {
            crate::resp::wire::lemma_first_crlf_some(buf@, 1, end as int);
        }
        let token = copy_range(buf.as_slice(), 1, end);
        if !is_double_token_exec(&token) {
            return Err(RespError::ParseFloatError);
        }
        drain_buffer(buf, end + 2);
        Ok(Double(token))
    }
}

impl BulkString {
    /// Decodes a `$` frame from the head of the buffer.
    pub fn decode(buf: &mut Vec<u8>) -> (r: Result<BulkString, RespError>)
        ensures
            match r {
                Result::Ok(b) => (match parse_frame_s(old(buf)@) {
                    SpecParse::Done(fv, n) => fv == FrameV::BulkString(b@)
                        && final(buf)@ == old(buf)@.skip(n),
                    _ => false,
                }),
                Result::Err(e) => final(buf)@ == old(buf)@ && match e {
                    RespError::NotCompleted => parse_frame_s(old(buf)@) is Incomplete,
                    _ => old(buf)@.len() >= 1 && (old(buf)@[0] != 36 || parse_frame_s(old(buf)@)
                        is Invalid),
                },
            },
    {
        let n_buf = buf.len();
        let p = match parse_length(36, buf.as_slice()) {
            Result::Ok(p) => p,
            Result::Err(e) => {
                match e {
                    RespError::NotCompleted => {
                        return Err(RespError::NotCompleted);
                    },
                    RespError::ParseIntError => {
                        return Err(RespError::ParseIntError);
                    },
                    _ => {
                        return Err(e);
                    },
                }
            },
        };
        let (end, v) = p;
        proof {
            crate::resp::wire::lemma_first_crlf_some(buf@, 1, end as int);
        }
        if v == -1 {
            drain_buffer(buf, end + 2);
            return Ok(BulkString(Option::None));
        }
        if v < -1 {
            return Err(RespError::InvalidFrame(Vec::new()));
        }
        let rem = n_buf - (end + 2);
        if (rem as u64) < (v as u64) + 2 {
            return Err(RespError::NotCompleted);
        }
        let dlen = v as usize;
        let ghost s = buf@;
        if buf[end + 2 + dlen] == 13 && buf[end + 2 + dlen + 1] == 10 {
            let data = copy_range(buf.as_slice(), end + 2, end + 2 + dlen);
            proof {
                assert(crate::resp::wire::crlf_at(s, end + 2 + v));
            }
            drain_buffer(buf, end + 2 + dlen + 2);
            Ok(BulkString(Option::Some(data)))
        } else {
            proof {
                assert(!crate::resp::wire::crlf_at(s, end + 2 + v));
            }
            Err(RespError::InvalidFrameType(Vec::new()))
        }
    }
}

impl RespArray {
    /// Decodes a `*` frame from the head of the buffer.
    pub fn decode(buf: &mut Vec<u8>) -> (r: Result<RespArray, RespError>)
        ensures
            match r {
                Result::Ok(a) => (match parse_frame_s(old(buf)@) {
                    SpecParse::Done(fv, n) => fv == FrameV::Array(a@)
                        && final(buf)@ == old(buf)@.skip(n),
                    _ => false,
                }),
                Result::Err(e) => match e {
                    RespError::NotCompleted => parse_frame_s(old(buf)@) is Incomplete
                        && final(buf)@ == old(buf)@,
                    _ => old(buf)@.len() == 0 || old(buf)@[0] != 42 || parse_frame_s(old(buf)@)
                        is Invalid,
                },
            },
    {
        if buf.len() == 0 || buf[0] != 42 {
            if buf.len() == 0 {
                return Err(RespError::NotCompleted);
            }
            return Err(RespError::InvalidFrameType(Vec::new()));
        }
        match RespFrame::decode(buf) {
            Result::Ok(f) => {
                proof {
                    crate::resp::frame::lemma_view_variant(&f);
                }
                match f {
                    RespFrame::Array(a) => Ok(a),
                    _ => Err(RespError::InvalidFrameType(Vec::new())),
                }
            },
            Result::Err(e) => Err(e),
        }
    }
}

impl RespSet {
    /// Decodes a `~` frame from the head of the buffer, dropping duplicate
    /// elements.
    pub fn decode(buf: &mut Vec<u8>) -> (r: Result<RespSet, RespError>)
        ensures
            match r {
                Result::Ok(st) => (match parse_frame_s(old(buf)@) {
                    SpecParse::Done(fv, n) => fv == FrameV::Uniq(st@)
                        && final(buf)@ == old(buf)@.skip(n),
                    _ => false,
                }),
                Result::Err(e) => match e {
                    RespError::NotCompleted => parse_frame_s(old(buf)@) is Incomplete
                        && final(buf)@ == old(buf)@,
                    _ => old(buf)@.len() == 0 || old(buf)@[0] != 126 || parse_frame_s(old(buf)@)
                        is Invalid,
                },
            },
    {
        if buf.len() == 0 || buf[0] != 126 {
            if buf.len() == 0 {
                return Err(RespError::NotCompleted);
            }
            return Err(RespError::InvalidFrameType(Vec::new()));
        }
        match RespFrame::decode(buf) {
            Result::Ok(f) => {
                proof {
                    crate::resp::frame::lemma_view_variant(&f);
                }
                match f {
                    RespFrame::Uniq(st) => Ok(st),
                    _ => Err(RespError::InvalidFrameType(Vec::new())),
                }
            },
            Result::Err(e) => Err(e),
        }
    }
}

impl RespMap {
    /// Decodes a `%` frame from the head of the buffer, merging repeated
    /// keys.
    pub fn decode(buf: &mut Vec<u8>) -> (r: Result<RespMap, RespError>)
        ensures
            match r {
                Result::Ok(m) => (match parse_frame_s(old(buf)@) {
                    SpecParse::Done(fv, n) => fv == FrameV::Dict(m@)
                        && final(buf)@ == old(buf)@.skip(n),
                    _ => false,
                }),
                Result::Err(e) => match e {
                    RespError::NotCompleted => parse_frame_s(old(buf)@) is Incomplete
                        && final(buf)@ == old(buf)@,
                    _ => old(buf)@.len() == 0 || old(buf)@[0] != 37 || parse_frame_s(old(buf)@)
                        is Invalid,
                },
            },
    {
        if buf.len() == 0 || buf[0] != 37 {
            if buf.len() == 0 {
                return Err(RespError::NotCompleted);
            }
            return Err(RespError::InvalidFrameType(Vec::new()));
        }
        match RespFrame::decode(buf) {
            Result::Ok(f) => {
                proof {
                    crate::resp::frame::lemma_view_variant(&f);
                }
                match f {
                    RespFrame::Dict(m) => Ok(m),
                    _ => Err(RespError::InvalidFrameType(Vec::new())),
                }
            },
            Result::Err(e) => Err(e),
        }
    }
}

} // verus!



