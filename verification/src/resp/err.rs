//! Error values of the codec.

use vstd::prelude::*;

verus! {

/// Outcome classification of the scanner and the decoder.
///
/// `NotCompleted` is the only recoverable case: the bytes seen so far are a
/// prefix of some frame and the caller should read more.  Every other
/// variant marks input that no extension can repair.
#[derive(Debug, PartialEq, Eq)]
pub enum RespError {
    NotCompleted,
    InvalidFrameType(Vec<u8>),
    InvalidFrame(Vec<u8>),
    ParseIntError,
    ParseFloatError,
}

impl RespError {
    /// Human-readable description, as protocol-error text.
    pub fn message(&self) -> (r: Vec<u8>)
    {
        let mut m: Vec<u8> = Vec::new();
        match self {
            RespError::NotCompleted => {
                append_slice(&mut m, "frame is not completed".as_bytes());
            },
            RespError::InvalidFrameType(d) => {
                append_slice(&mut m, "Invalid frame type: ".as_bytes());
                append_vec(&mut m, d);
            },
            RespError::InvalidFrame(d) => {
                append_slice(&mut m, "Invalid frame: ".as_bytes());
                append_vec(&mut m, d);
            },
            RespError::ParseIntError => {
                append_slice(&mut m, "Parse int error: invalid digit found in string".as_bytes());
            },
            RespError::ParseFloatError => {
                append_slice(&mut m, "Parse float error: invalid float literal".as_bytes());
            },
        }
        m
    }
}

/// Appends all bytes of a slice.
pub fn append_slice(buf: &mut Vec<u8>, data: &[u8])
    ensures
        final(buf)@ == old(buf)@ + data@,
{
    let n = data.len();
    let mut j: usize = 0;
    while j < n
        invariant
            n == data@.len(),
            j <= n,
            buf@ == old(buf)@ + data@.take(j as int),
        decreases n - j,
    {
        buf.push(data[j]);
        proof {
            assert(buf@ =~= old(buf)@ + data@.take(j + 1));
        }
        j = j + 1;
    }
    proof {
        assert(data@.take(n as int) =~= data@);
    }
}

/// Appends all bytes of a vector.
pub fn append_vec(buf: &mut Vec<u8>, data: &Vec<u8>)
    ensures
        final(buf)@ == old(buf)@ + data@,
{
    append_slice(buf, data.as_slice())
}

} // verus!
