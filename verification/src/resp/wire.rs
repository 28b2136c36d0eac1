//! Mathematical model of the RESP wire format.
//!
//! `FrameV` is the specification-level value of one RESP frame.  The three
//! functions that define the protocol are
//! - `encode_frame`: the exact byte sequence a frame encodes to,
//! - `parse_frame_s`: what decoding a byte sequence yields (a frame and the
//!   number of bytes it occupies, or `Incomplete` / `Invalid`),
//! - `scan_frame_s`: what the length scanner yields (the length only; it
//!   skips bulk payloads and does not validate token bodies).
//!
//! Every executable encoder, scanner and decoder of this crate is proved
//! against these functions.

use vstd::prelude::*;

verus! {

pub const CR: u8 = 13;
pub const LF: u8 = 10;

/// The two-byte record terminator used by every RESP frame.
pub open spec fn spec_crlf() -> Seq<u8> {
    seq![CR, LF]
}

/// True when `s` holds the CRLF pair starting at index `i`.
pub open spec fn crlf_at(s: Seq<u8>, i: int) -> bool {
    0 <= i && i + 2 <= s.len() && s[i] == CR && s[i + 1] == LF
}

/// True when `s` contains no CRLF pair; such text can stand on a single
/// protocol line without breaking the framing.
pub open spec fn no_crlf(s: Seq<u8>) -> bool {
    forall|i: int| !crlf_at(s, i)
}

/// True when `s` contains neither a CR nor an LF byte (the invariant of
/// simple-string and simple-error payloads).
pub open spec fn clean_text(s: Seq<u8>) -> bool {
    forall|i: int| 0 <= i < s.len() ==> s[i] != CR && s[i] != LF
}

/// Index of the first CRLF pair at or after `from`, if any.
pub open spec fn first_crlf(s: Seq<u8>, from: int) -> Option<int>
    decreases s.len() - from,
{
    if from < 0 || from + 2 > s.len() {
        None
    } else if s[from] == CR && s[from + 1] == LF {
        Some(from)
    } else {
        first_crlf(s, from + 1)
    }
}

pub proof fn lemma_first_crlf_some(s: Seq<u8>, from: int, e: int)
    requires
        first_crlf(s, from) == Some(e),
    ensures
        from <= e,
        e + 2 <= s.len(),
        crlf_at(s, e),
        forall|j: int| from <= j < e ==> !crlf_at(s, j),
    decreases s.len() - from,
{
    if !(from < 0 || from + 2 > s.len()) && !(s[from] == CR && s[from + 1] == LF) {
        lemma_first_crlf_some(s, from + 1, e);
    }
}

pub proof fn lemma_first_crlf_none(s: Seq<u8>, from: int, j: int)
    requires
        first_crlf(s, from) == None::<int>,
        from <= j,
        from >= 0,
    ensures
        !crlf_at(s, j),
    decreases s.len() - from,
{
    if from + 2 <= s.len() && !(s[from] == CR && s[from + 1] == LF) {
        if from + 1 <= j {
            lemma_first_crlf_none(s, from + 1, j);
        }
    }
}

// ---------------------------------------------------------------------------
// decimal tokens
// ---------------------------------------------------------------------------

pub open spec fn is_digit(b: u8) -> bool {
    48 <= b <= 57
}

/// One or more decimal digits.
pub open spec fn all_digits(t: Seq<u8>) -> bool {
    t.len() > 0 && forall|i: int| 0 <= i < t.len() ==> is_digit(#[trigger] t[i])
}

/// Numeric value of a digit string.
pub open spec fn digits_val(t: Seq<u8>) -> nat
    decreases t.len(),
{
    if t.len() == 0 {
        0
    } else {
        digits_val(t.drop_last()) * 10 + (t.last() - 48) as nat
    }
}

/// Value of a `[+|-]?digits` token, or `None` if it has any other shape.
/// The value is unbounded here; finite-width bounds are imposed at use sites.
pub open spec fn parse_int_token(t: Seq<u8>) -> Option<int> {
    if t.len() > 0 && t[0] == 45 {
        if all_digits(t.skip(1)) {
            Some(-(digits_val(t.skip(1)) as int))
        } else {
            None
        }
    } else if t.len() > 0 && t[0] == 43 {
        if all_digits(t.skip(1)) {
            Some(digits_val(t.skip(1)) as int)
        } else {
            None
        }
    } else if all_digits(t) {
        Some(digits_val(t) as int)
    } else {
        None
    }
}

pub open spec fn in_i64(v: int) -> bool {
    -9223372036854775808 <= v <= 9223372036854775807
}

/// Canonical decimal digits of `n`, most significant first, no sign.
pub open spec fn dec_digits(n: nat) -> Seq<u8>
    decreases n,
{
    if n < 10 {
        seq![(48 + n) as u8]
    } else {
        dec_digits(n / 10).push((48 + n % 10) as u8)
    }
}

/// Canonical decimal form of `i`, with a `-` sign when negative.
pub open spec fn dec_int(i: int) -> Seq<u8> {
    if i < 0 {
        seq![45u8] + dec_digits((-i) as nat)
    } else {
        dec_digits(i as nat)
    }
}

// ---------------------------------------------------------------------------
// double tokens
// ---------------------------------------------------------------------------

/// Number of consecutive decimal digits in `t` starting at `from`.
pub open spec fn digit_run(t: Seq<u8>, from: int) -> int
    decreases t.len() - from,
{
    if 0 <= from < t.len() && is_digit(t[from]) {
        1 + digit_run(t, from + 1)
    } else {
        0
    }
}

/// `digits [ '.' digits ] [ ('e'|'E') [sign] digits ]`, covering all of `t`
/// starting at `from`.
pub open spec fn is_decimal_from(t: Seq<u8>, from: int) -> bool {
    let d1 = digit_run(t, from);
    d1 > 0 && {
        let p = from + d1;
        if p == t.len() {
            true
        } else if t[p] == 46 {
            let d2 = digit_run(t, p + 1);
            d2 > 0 && {
                let q = p + 1 + d2;
                q == t.len() || is_exponent_from(t, q)
            }
        } else {
            is_exponent_from(t, p)
        }
    }
}

/// `('e'|'E') [sign] digits`, covering all of `t` starting at `from`.
pub open spec fn is_exponent_from(t: Seq<u8>, from: int) -> bool {
    0 <= from < t.len() && (t[from] == 101 || t[from] == 69) && {
        let r = if from + 1 < t.len() && (t[from + 1] == 43 || t[from + 1] == 45) {
            from + 2
        } else {
            from + 1
        };
        let d = digit_run(t, r);
        d > 0 && r + d == t.len()
    }
}

/// The token grammar of a RESP double: an optional sign followed by `inf`,
/// `nan`, or a decimal with optional fraction and exponent.
pub open spec fn is_double_token(t: Seq<u8>) -> bool {
    let u = if t.len() > 0 && (t[0] == 43 || t[0] == 45) {
        1int
    } else {
        0int
    };
    (t.skip(u) =~= seq![105u8, 110u8, 102u8])  // inf
    || (t.skip(u) =~= seq![110u8, 97u8, 110u8])  // nan
    || is_decimal_from(t, u)
}

// ---------------------------------------------------------------------------
// the frame model
// ---------------------------------------------------------------------------

/// Specification-level value of one RESP frame.
///
/// Text payloads are byte sequences (the wire is binary-safe); a double is
/// carried as its wire token, so that the model stays exact without any
/// floating-point arithmetic; a map is a sequence of key/value pairs with
/// unique keys in insertion order; a set is a sequence of unique frames in
/// insertion order.
pub enum FrameV {
    SimpleString(Seq<u8>),
    Error(Seq<u8>),
    Integer(int),
    BulkString(Option<Seq<u8>>),
    Array(Option<Seq<FrameV>>),
    Null,
    Boolean(bool),
    Double(Seq<u8>),
    Dict(Seq<(Seq<u8>, FrameV)>),
    Uniq(Seq<FrameV>),
}

// ---------------------------------------------------------------------------
// encoding
// ---------------------------------------------------------------------------

/// Exact wire bytes of a frame.
pub open spec fn encode_frame(f: FrameV) -> Seq<u8>
    decreases f,
{
    match f {
        FrameV::SimpleString(s) => seq![43u8] + s + spec_crlf(),
        FrameV::Error(s) => seq![45u8] + s + spec_crlf(),
        FrameV::Integer(i) => seq![58u8] + dec_int(i) + spec_crlf(),
        FrameV::BulkString(d) => match d {
            Option::None => seq![36u8, 45u8, 49u8, CR, LF],
            Option::Some(d) => seq![36u8] + dec_digits(d.len()) + spec_crlf() + d + spec_crlf(),
        },
        FrameV::Array(a) => match a {
            Option::None => seq![42u8, 45u8, 49u8, CR, LF],
            Option::Some(els) => seq![42u8] + dec_digits(els.len()) + spec_crlf() + encode_els(
                els,
            ),
        },
        FrameV::Null => seq![95u8, CR, LF],
        FrameV::Boolean(b) => seq![35u8, if b { 116u8 } else { 102u8 }, CR, LF],
        FrameV::Double(t) => seq![44u8] + t + spec_crlf(),
        FrameV::Dict(es) => seq![37u8] + dec_digits(es.len()) + spec_crlf() + encode_entries(es),
        FrameV::Uniq(els) => seq![126u8] + dec_digits(els.len()) + spec_crlf() + encode_els(els),
    }
}

/// Concatenated encodings of a sequence of frames.
pub open spec fn encode_els(els: Seq<FrameV>) -> Seq<u8>
    decreases els,
{
    if els.len() == 0 {
        Seq::empty()
    } else {
        encode_frame(els[0]) + encode_els(els.drop_first())
    }
}

/// Concatenated encodings of map entries: each key as a simple string,
/// followed by the value.
pub open spec fn encode_entries(es: Seq<(Seq<u8>, FrameV)>) -> Seq<u8>
    decreases es,
{
    if es.len() == 0 {
        Seq::empty()
    } else {
        seq![43u8] + es[0].0 + spec_crlf() + encode_frame(es[0].1) + encode_entries(
            es.drop_first(),
        )
    }
}

// ---------------------------------------------------------------------------
// well-formedness
// ---------------------------------------------------------------------------

/// Keys of a key/value sequence.
pub open spec fn entry_keys(es: Seq<(Seq<u8>, FrameV)>) -> Seq<Seq<u8>> {
    es.map_values(|e: (Seq<u8>, FrameV)| e.0)
}

pub open spec fn distinct_seq<A>(s: Seq<A>) -> bool {
    forall|i: int, j: int| 0 <= i < j < s.len() ==> s[i] != s[j]
}

/// The conditions under which a frame survives an encode/decode round trip:
/// line payloads hold no CRLF pair, integers fit in 64 bits, double tokens
/// obey the token grammar, map keys are unique (and the map is non-empty,
/// since the wire format requires a positive entry count), and set elements
/// are unique.
pub open spec fn encodable(f: FrameV) -> bool
    decreases f,
{
    match f {
        FrameV::SimpleString(s) => no_crlf(s),
        FrameV::Error(s) => no_crlf(s),
        FrameV::Integer(i) => in_i64(i),
        FrameV::BulkString(d) => match d {
            Option::None => true,
            Option::Some(d) => d.len() <= 9223372036854775807,
        },
        FrameV::Array(a) => match a {
            Option::None => true,
            Option::Some(els) => els.len() <= 9223372036854775807 && encodable_els(els),
        },
        FrameV::Null => true,
        FrameV::Boolean(_) => true,
        FrameV::Double(t) => is_double_token(t),
        FrameV::Dict(es) => 1 <= es.len() <= 9223372036854775807 && distinct_seq(entry_keys(es))
            && encodable_entries(es),
        FrameV::Uniq(els) => els.len() <= 9223372036854775807 && distinct_seq(els)
            && encodable_els(els),
    }
}

pub open spec fn encodable_els(els: Seq<FrameV>) -> bool
    decreases els,
{
    if els.len() == 0 {
        true
    } else {
        encodable(els[0]) && encodable_els(els.drop_first())
    }
}

pub open spec fn encodable_entries(es: Seq<(Seq<u8>, FrameV)>) -> bool
    decreases es,
{
    if es.len() == 0 {
        true
    } else {
        no_crlf(es[0].0) && encodable(es[0].1) && encodable_entries(es.drop_first())
    }
}

// ---------------------------------------------------------------------------
// de-duplication (sets) and keyed insertion (maps)
// ---------------------------------------------------------------------------

/// Drops every element that already occurred earlier, keeping first-seen
/// order.
pub open spec fn dedup_els(els: Seq<FrameV>) -> Seq<FrameV>
    decreases els.len(),
{
    if els.len() == 0 {
        Seq::empty()
    } else {
        let rest = dedup_els(els.drop_last());
        if rest.contains(els.last()) {
            rest
        } else {
            rest.push(els.last())
        }
    }
}

/// Inserts a key/value pair: overwrites the value in place when the key is
/// present, appends otherwise.
pub open spec fn map_put(m: Seq<(Seq<u8>, FrameV)>, k: Seq<u8>, v: FrameV) -> Seq<
    (Seq<u8>, FrameV),
>
    decreases m.len(),
{
    if m.len() == 0 {
        seq![(k, v)]
    } else if m[0].0 == k {
        seq![(k, v)] + m.skip(1)
    } else {
        seq![m[0]] + map_put(m.skip(1), k, v)
    }
}

/// Folds `map_put` over raw wire entries, in wire order.
pub open spec fn map_from_entries(es: Seq<(Seq<u8>, FrameV)>) -> Seq<(Seq<u8>, FrameV)>
    decreases es.len(),
{
    if es.len() == 0 {
        Seq::empty()
    } else {
        map_put(map_from_entries(es.drop_last()), es.last().0, es.last().1)
    }
}

// ---------------------------------------------------------------------------
// parsing
// ---------------------------------------------------------------------------

pub enum SpecParse {
    Done(FrameV, int),
    Incomplete,
    Invalid,
}

pub enum SpecParseList {
    Done(Seq<FrameV>, int),
    Incomplete,
    Invalid,
}

pub enum SpecParseEntries {
    Done(Seq<(Seq<u8>, FrameV)>, int),
    Incomplete,
    Invalid,
}

/// Decoding one frame from the head of `s`: the frame value and the number
/// of bytes it occupies.
pub open spec fn parse_frame_s(s: Seq<u8>) -> SpecParse
    decreases s.len(), 0nat, 0nat,
{
    if s.len() == 0 {
        SpecParse::Incomplete
    } else if s[0] == 43 || s[0] == 45 {
        // simple string / simple error
        match first_crlf(s, 1) {
            Option::None => SpecParse::Incomplete,
            Option::Some(e) => {
                let t = s.subrange(1, e);
                if s[0] == 43 {
                    SpecParse::Done(FrameV::SimpleString(t), e + 2)
                } else {
                    SpecParse::Done(FrameV::Error(t), e + 2)
                }
            },
        }
    } else if s[0] == 58 {
        // integer
        match first_crlf(s, 1) {
            Option::None => SpecParse::Incomplete,
            Option::Some(e) => match parse_int_token(s.subrange(1, e)) {
                Option::Some(v) => if in_i64(v) {
                    SpecParse::Done(FrameV::Integer(v), e + 2)
                } else {
                    SpecParse::Invalid
                },
                Option::None => SpecParse::Invalid,
            },
        }
    } else if s[0] == 35 {
        // boolean
        match first_crlf(s, 1) {
            Option::None => SpecParse::Incomplete,
            Option::Some(e) => if e == 2 && s[1] == 116 {
                SpecParse::Done(FrameV::Boolean(true), 4)
            } else if e == 2 && s[1] == 102 {
                SpecParse::Done(FrameV::Boolean(false), 4)
            } else {
                SpecParse::Invalid
            },
        }
    } else if s[0] == 95 {
        // null
        match first_crlf(s, 1) {
            Option::None => SpecParse::Incomplete,
            Option::Some(e) => if e == 1 {
                SpecParse::Done(FrameV::Null, 3)
            } else {
                SpecParse::Invalid
            },
        }
    } else if s[0] == 44 {
        // double
        match first_crlf(s, 1) {
            Option::None => SpecParse::Incomplete,
            Option::Some(e) => {
                let t = s.subrange(1, e);
                if is_double_token(t) {
                    SpecParse::Done(FrameV::Double(t), e + 2)
                } else {
                    SpecParse::Invalid
                }
            },
        }
    } else if s[0] == 36 {
        // bulk string
        match first_crlf(s, 1) {
            Option::None => SpecParse::Incomplete,
            Option::Some(e) => match parse_int_token(s.subrange(1, e)) {
                Option::None => SpecParse::Invalid,
                Option::Some(v) => if !in_i64(v) {
                    SpecParse::Invalid
                } else if v == -1 {
                    SpecParse::Done(FrameV::BulkString(Option::None), e + 2)
                } else if v < -1 {
                    SpecParse::Invalid
                } else if s.len() < e + 2 + v + 2 {
                    SpecParse::Incomplete
                } else if crlf_at(s, e + 2 + v) {
                    SpecParse::Done(
                        FrameV::BulkString(Option::Some(s.subrange(e + 2, e + 2 + v))),
                        e + 2 + v + 2,
                    )
                } else {
                    SpecParse::Invalid
                },
            },
        }
    } else if s[0] == 42 {
        // array
        match first_crlf(s, 1) {
            Option::None => SpecParse::Incomplete,
            Option::Some(e) => if e < 1 || e + 2 > s.len() {
                SpecParse::Invalid
            } else {
                match parse_int_token(s.subrange(1, e)) {
                    Option::None => SpecParse::Invalid,
                    Option::Some(v) => if !in_i64(v) {
                        SpecParse::Invalid
                    } else if v == -1 {
                        SpecParse::Done(FrameV::Array(Option::None), e + 2)
                    } else if v < -1 {
                        SpecParse::Invalid
                    } else {
                        match parse_els(s.skip(e + 2), v as nat) {
                            SpecParseList::Incomplete => SpecParse::Incomplete,
                            SpecParseList::Invalid => SpecParse::Invalid,
                            SpecParseList::Done(els, m) => SpecParse::Done(
                                FrameV::Array(Option::Some(els)),
                                e + 2 + m,
                            ),
                        }
                    },
                }
            },
        }
    } else if s[0] == 126 {
        // set
        match first_crlf(s, 1) {
            Option::None => SpecParse::Incomplete,
            Option::Some(e) => if e < 1 || e + 2 > s.len() {
                SpecParse::Invalid
            } else {
                match parse_int_token(s.subrange(1, e)) {
                    Option::None => SpecParse::Invalid,
                    Option::Some(v) => if !in_i64(v) || v < 0 {
                        SpecParse::Invalid
                    } else {
                        match parse_els(s.skip(e + 2), v as nat) {
                            SpecParseList::Incomplete => SpecParse::Incomplete,
                            SpecParseList::Invalid => SpecParse::Invalid,
                            SpecParseList::Done(els, m) => SpecParse::Done(
                                FrameV::Uniq(dedup_els(els)),
                                e + 2 + m,
                            ),
                        }
                    },
                }
            },
        }
    } else if s[0] == 37 {
        // map
        match first_crlf(s, 1) {
            Option::None => SpecParse::Incomplete,
            Option::Some(e) => if e < 1 || e + 2 > s.len() {
                SpecParse::Invalid
            } else {
                match parse_int_token(s.subrange(1, e)) {
                    Option::None => SpecParse::Invalid,
                    Option::Some(v) => if !in_i64(v) || v < 1 {
                        SpecParse::Invalid
                    } else {
                        match parse_map_entries(s.skip(e + 2), v as nat) {
                            SpecParseEntries::Incomplete => SpecParse::Incomplete,
                            SpecParseEntries::Invalid => SpecParse::Invalid,
                            SpecParseEntries::Done(es, m) => SpecParse::Done(
                                FrameV::Dict(map_from_entries(es)),
                                e + 2 + m,
                            ),
                        }
                    },
                }
            },
        }
    } else {
        SpecParse::Invalid
    }
}

/// Decoding `n` consecutive frames from the head of `s`.
pub open spec fn parse_els(s: Seq<u8>, n: nat) -> SpecParseList
    decreases s.len(), n, 1nat,
{
    if n == 0 {
        SpecParseList::Done(Seq::empty(), 0)
    } else {
        match parse_frame_s(s) {
            SpecParse::Incomplete => SpecParseList::Incomplete,
            SpecParse::Invalid => SpecParseList::Invalid,
            SpecParse::Done(f, k) => {
                if k < 0 || k > s.len() {
                    SpecParseList::Invalid
                } else {
                    match parse_els(s.skip(k), (n - 1) as nat) {
                        SpecParseList::Incomplete => SpecParseList::Incomplete,
                        SpecParseList::Invalid => SpecParseList::Invalid,
                        SpecParseList::Done(els, m) => SpecParseList::Done(
                            seq![f] + els,
                            k + m,
                        ),
                    }
                }
            },
        }
    }
}

/// Decoding `n` consecutive key/value entries (key: simple string) from the
/// head of `s`, in wire order, duplicates not yet merged.
pub open spec fn parse_map_entries(s: Seq<u8>, n: nat) -> SpecParseEntries
    decreases s.len(), n, 1nat,
{
    if n == 0 {
        SpecParseEntries::Done(Seq::empty(), 0)
    } else {
        match parse_frame_s(s) {
            SpecParse::Incomplete => SpecParseEntries::Incomplete,
            SpecParse::Invalid => SpecParseEntries::Invalid,
            SpecParse::Done(kf, k) => {
                if k < 0 || k > s.len() {
                    SpecParseEntries::Invalid
                } else {
                    match kf {
                        FrameV::SimpleString(key) => match parse_value_then_entries(
                            s.skip(k),
                            (n - 1) as nat,
                        ) {
                            SpecParseEntries::Incomplete => SpecParseEntries::Incomplete,
                            SpecParseEntries::Invalid => SpecParseEntries::Invalid,
                            SpecParseEntries::Done(es, m) => SpecParseEntries::Done(
                                seq![(key, es[0].1)] + es.skip(1),
                                k + m,
                            ),
                        },
                        _ => SpecParseEntries::Invalid,
                    }
                }
            },
        }
    }
}

/// Decoding one value frame and then `n` further entries; the value is
/// prepended as the pair `(empty key, value)` so that the caller can attach
/// the real key.
pub open spec fn parse_value_then_entries(s: Seq<u8>, n: nat) -> SpecParseEntries
    decreases s.len(), n, 2nat,
{
    match parse_frame_s(s) {
        SpecParse::Incomplete => SpecParseEntries::Incomplete,
        SpecParse::Invalid => SpecParseEntries::Invalid,
        SpecParse::Done(vf, k) => {
            if k < 0 || k > s.len() {
                SpecParseEntries::Invalid
            } else {
                match parse_map_entries(s.skip(k), n) {
                    SpecParseEntries::Incomplete => SpecParseEntries::Incomplete,
                    SpecParseEntries::Invalid => SpecParseEntries::Invalid,
                    SpecParseEntries::Done(es, m) => SpecParseEntries::Done(
                        seq![(Seq::empty(), vf)] + es,
                        k + m,
                    ),
                }
            }
        },
    }
}

// ---------------------------------------------------------------------------
// length scanning
// ---------------------------------------------------------------------------

pub enum SpecScan {
    Done(int),
    Incomplete,
    Invalid,
}

/// The length scanner: how many bytes the next complete frame occupies.
/// For bulk strings it only checks that `length + 2` trailing bytes are
/// present; token bodies of line frames are not validated.
pub open spec fn scan_frame_s(s: Seq<u8>) -> SpecScan
    decreases s.len(), 0nat, 0nat,
{
    if s.len() == 0 {
        SpecScan::Incomplete
    } else if s[0] == 43 || s[0] == 45 || s[0] == 58 || s[0] == 35 || s[0] == 95 || s[0] == 44 {
        match first_crlf(s, 1) {
            Option::None => SpecScan::Incomplete,
            Option::Some(e) => SpecScan::Done(e + 2),
        }
    } else if s[0] == 36 {
        // bulk string: skip the payload without validating it
        match first_crlf(s, 1) {
            Option::None => SpecScan::Incomplete,
            Option::Some(e) => match parse_int_token(s.subrange(1, e)) {
                Option::None => SpecScan::Invalid,
                Option::Some(v) => if !in_i64(v) {
                    SpecScan::Invalid
                } else if v == -1 {
                    SpecScan::Done(e + 2)
                } else if v < -1 {
                    SpecScan::Invalid
                } else if s.len() < e + 2 + v + 2 {
                    SpecScan::Incomplete
                } else {
                    SpecScan::Done(e + 2 + v + 2)
                },
            },
        }
    } else if s[0] == 42 || s[0] == 126 {
        // array / set
        match first_crlf(s, 1) {
            Option::None => SpecScan::Incomplete,
            Option::Some(e) => if e < 1 || e + 2 > s.len() {
                SpecScan::Invalid
            } else {
                match parse_int_token(s.subrange(1, e)) {
                    Option::None => SpecScan::Invalid,
                    Option::Some(v) => if !in_i64(v) {
                        SpecScan::Invalid
                    } else if v == -1 && s[0] == 42 {
                        SpecScan::Done(e + 2)
                    } else if v < 0 {
                        SpecScan::Invalid
                    } else {
                        match scan_els(s.skip(e + 2), v as nat) {
                            SpecScan::Incomplete => SpecScan::Incomplete,
                            SpecScan::Invalid => SpecScan::Invalid,
                            SpecScan::Done(m) => SpecScan::Done(e + 2 + m),
                        }
                    },
                }
            },
        }
    } else if s[0] == 37 {
        // map
        match first_crlf(s, 1) {
            Option::None => SpecScan::Incomplete,
            Option::Some(e) => if e < 1 || e + 2 > s.len() {
                SpecScan::Invalid
            } else {
                match parse_int_token(s.subrange(1, e)) {
                    Option::None => SpecScan::Invalid,
                    Option::Some(v) => if !in_i64(v) || v < 1 {
                        SpecScan::Invalid
                    } else {
                        match scan_entries(s.skip(e + 2), v as nat) {
                            SpecScan::Incomplete => SpecScan::Incomplete,
                            SpecScan::Invalid => SpecScan::Invalid,
                            SpecScan::Done(m) => SpecScan::Done(e + 2 + m),
                        }
                    },
                }
            },
        }
    } else {
        SpecScan::Invalid
    }
}

/// Total length of `n` consecutive frames at the head of `s`.
pub open spec fn scan_els(s: Seq<u8>, n: nat) -> SpecScan
    decreases s.len(), n, 1nat,
{
    if n == 0 {
        SpecScan::Done(0)
    } else {
        match scan_frame_s(s) {
            SpecScan::Incomplete => SpecScan::Incomplete,
            SpecScan::Invalid => SpecScan::Invalid,
            SpecScan::Done(k) => {
                if k < 0 || k > s.len() {
                    SpecScan::Invalid
                } else {
                    match scan_els(s.skip(k), (n - 1) as nat) {
                        SpecScan::Incomplete => SpecScan::Incomplete,
                        SpecScan::Invalid => SpecScan::Invalid,
                        SpecScan::Done(m) => SpecScan::Done(k + m),
                    }
                }
            },
        }
    }
}

/// Total length of `n` consecutive key/value entries at the head of `s`:
/// each key must be a `+` line, each value any frame.
pub open spec fn scan_entries(s: Seq<u8>, n: nat) -> SpecScan
    decreases s.len(), n, 1nat,
{
    if n == 0 {
        SpecScan::Done(0)
    } else if s.len() == 0 {
        SpecScan::Incomplete
    } else if s[0] != 43 {
        SpecScan::Invalid
    } else {
        match first_crlf(s, 1) {
            Option::None => SpecScan::Incomplete,
            Option::Some(e) => if e < 1 || e + 2 > s.len() {
                SpecScan::Invalid
            } else {
                match scan_value_then_entries(s.skip(e + 2), (n - 1) as nat) {
                    SpecScan::Incomplete => SpecScan::Incomplete,
                    SpecScan::Invalid => SpecScan::Invalid,
                    SpecScan::Done(m) => SpecScan::Done(e + 2 + m),
                }
            },
        }
    }
}

/// Length of one value frame followed by `n` further entries.
pub open spec fn scan_value_then_entries(s: Seq<u8>, n: nat) -> SpecScan
    decreases s.len(), n, 2nat,
{
    match scan_frame_s(s) {
        SpecScan::Incomplete => SpecScan::Incomplete,
        SpecScan::Invalid => SpecScan::Invalid,
        SpecScan::Done(k) => {
            if k < 0 || k > s.len() {
                SpecScan::Invalid
            } else {
                match scan_entries(s.skip(k), n) {
                    SpecScan::Incomplete => SpecScan::Incomplete,
                    SpecScan::Invalid => SpecScan::Invalid,
                    SpecScan::Done(m) => SpecScan::Done(k + m),
                }
            }
        },
    }
}


// ---------------------------------------------------------------------------
// unfolding lemmas for the encoder
// ---------------------------------------------------------------------------

/// `encode_els` over a prefix grows one frame at a time.
pub proof fn lemma_encode_els_take(els: Seq<FrameV>, i: int)
    requires
        0 <= i < els.len(),
    ensures
        encode_els(els.take(i + 1)) == encode_els(els.take(i)) + encode_frame(els[i]),
    decreases i,
{
    if i == 0 {
        assert(els.take(1) =~= seq![els[0]]);
        assert(els.take(1).drop_first() =~= Seq::<FrameV>::empty());
        assert(els.take(0) =~= Seq::<FrameV>::empty());
        assert(encode_els(Seq::<FrameV>::empty()) =~= Seq::<u8>::empty());
        assert(encode_els(els.take(1)) =~= encode_frame(els[0]));
        assert(encode_els(els.take(0)) + encode_frame(els[0]) =~= encode_frame(els[0]));
    } else {
        lemma_encode_els_take(els.drop_first(), i - 1);
        assert(els.take(i + 1).drop_first() =~= els.drop_first().take(i));
        assert(els.take(i).drop_first() =~= els.drop_first().take(i - 1));
        assert(els.take(i + 1)[0] == els[0]);
        assert(els.take(i)[0] == els[0]);
        assert(els.drop_first()[i - 1] == els[i]);
        assert(encode_els(els.take(i + 1)) == encode_frame(els[0]) + encode_els(
            els.drop_first().take(i),
        ));
        assert(encode_els(els.take(i)) == encode_frame(els[0]) + encode_els(
            els.drop_first().take(i - 1),
        ));
        assert(encode_frame(els[0]) + (encode_els(els.drop_first().take(i - 1)) + encode_frame(
            els[i],
        )) =~= (encode_frame(els[0]) + encode_els(els.drop_first().take(i - 1))) + encode_frame(
            els[i],
        ));
    }
}

/// `encode_entries` over a prefix grows one entry at a time.
pub proof fn lemma_encode_entries_take(es: Seq<(Seq<u8>, FrameV)>, i: int)
    requires
        0 <= i < es.len(),
    ensures
        encode_entries(es.take(i + 1)) == encode_entries(es.take(i)) + (seq![43u8] + es[i].0
            + spec_crlf() + encode_frame(es[i].1)),
    decreases i,
{
    let one = seq![43u8] + es[i].0 + spec_crlf() + encode_frame(es[i].1);
    if i == 0 {
        assert(es.take(1) =~= seq![es[0]]);
        assert(es.take(1).drop_first() =~= Seq::<(Seq<u8>, FrameV)>::empty());
        assert(es.take(0) =~= Seq::<(Seq<u8>, FrameV)>::empty());
        assert(encode_entries(Seq::<(Seq<u8>, FrameV)>::empty()) =~= Seq::<u8>::empty());
        assert(encode_entries(es.take(1)) =~= one);
        assert(encode_entries(es.take(0)) + one =~= one);
    } else {
        lemma_encode_entries_take(es.drop_first(), i - 1);
        assert(es.take(i + 1).drop_first() =~= es.drop_first().take(i));
        assert(es.take(i).drop_first() =~= es.drop_first().take(i - 1));
        assert(es.take(i + 1)[0] == es[0]);
        assert(es.take(i)[0] == es[0]);
        assert(es.drop_first()[i - 1] == es[i]);
        let head = seq![43u8] + es[0].0 + spec_crlf() + encode_frame(es[0].1);
        assert(encode_entries(es.take(i + 1)) == head + encode_entries(es.drop_first().take(i)));
        assert(encode_entries(es.take(i)) == head + encode_entries(es.drop_first().take(i - 1)));
        assert(head + (encode_entries(es.drop_first().take(i - 1)) + one) =~= (head
            + encode_entries(es.drop_first().take(i - 1))) + one);
    }
}


/// `first_crlf` on a suffix mirrors `first_crlf` on the whole, shifted.
pub proof fn lemma_first_crlf_shift(s: Seq<u8>, k: int, j: int)
    requires
        0 <= k <= s.len(),
        0 <= j,
    ensures
        first_crlf(s.skip(k), j) == match first_crlf(s, k + j) {
            Option::Some(e) => Option::Some(e - k),
            Option::None => Option::None::<int>,
        },
    decreases s.len() - (k + j),
{
    let t = s.skip(k);
    if j + 2 > t.len() {
        assert(k + j + 2 > s.len());
    } else {
        assert(t[j] == s[k + j]);
        assert(t[j + 1] == s[k + j + 1]);
        if !(s[k + j] == CR && s[k + j + 1] == LF) {
            lemma_first_crlf_shift(s, k, j + 1);
        }
    }
}


/// Value stored under key `k`, by first match.
pub open spec fn map_lookup(m: Seq<(Seq<u8>, FrameV)>, k: Seq<u8>) -> Option<FrameV>
    decreases m.len(),
{
    if m.len() == 0 {
        None
    } else if m[0].0 == k {
        Some(m[0].1)
    } else {
        map_lookup(m.skip(1), k)
    }
}

/// How `map_put` changes lookups: the written key reads back the new value,
/// every other key is untouched.
pub proof fn lemma_map_put_lookup(m: Seq<(Seq<u8>, FrameV)>, k: Seq<u8>, v: FrameV, k2: Seq<u8>)
    ensures
        map_lookup(map_put(m, k, v), k2) == if k2 == k {
            Some(v)
        } else {
            map_lookup(m, k2)
        },
    decreases m.len(),
{
    if m.len() == 0 {
        let r = map_put(m, k, v);
        assert(r[0] == (k, v));
        assert(r.skip(1) =~= Seq::<(Seq<u8>, FrameV)>::empty());
        if k2 == k {
            assert(map_lookup(r, k2) == Some(v));
        } else {
            assert(map_lookup(r, k2) == map_lookup(r.skip(1), k2));
            assert(map_lookup(r.skip(1), k2) == None::<FrameV>);
            assert(map_lookup(m, k2) == None::<FrameV>);
        }
    } else if m[0].0 == k {
        let r = map_put(m, k, v);
        assert(r[0] == (k, v));
        assert(r.skip(1) =~= m.skip(1));
        if k2 == k {
            assert(map_lookup(r, k2) == Some(v));
        } else {
            assert(map_lookup(r, k2) == map_lookup(m.skip(1), k2));
            assert(map_lookup(m, k2) == map_lookup(m.skip(1), k2));
        }
    } else {
        lemma_map_put_lookup(m.skip(1), k, v, k2);
        let r = map_put(m, k, v);
        assert(r[0] == m[0]);
        assert(r.skip(1) =~= map_put(m.skip(1), k, v));
        if k2 == m[0].0 {
            assert(map_lookup(r, k2) == Some(m[0].1));
            assert(map_lookup(m, k2) == Some(m[0].1));
        } else {
            assert(map_lookup(r, k2) == map_lookup(map_put(m.skip(1), k, v), k2));
            assert(map_lookup(m, k2) == map_lookup(m.skip(1), k2));
        }
    }
}


/// `map_put` with a key absent from `m` appends the pair.
pub proof fn lemma_map_put_append(m: Seq<(Seq<u8>, FrameV)>, k: Seq<u8>, v: FrameV)
    requires
        forall|j: int| 0 <= j < m.len() ==> (#[trigger] m[j]).0 != k,
    ensures
        map_put(m, k, v) == m.push((k, v)),
    decreases m.len(),
{
    if m.len() == 0 {
        assert(map_put(m, k, v) =~~= m.push((k, v)));
    } else {
        lemma_map_put_append(m.skip(1), k, v);
        assert(forall|j: int| 0 <= j < m.skip(1).len() ==> (#[trigger] m.skip(1)[j]).0 != k);
        assert(map_put(m, k, v) =~~= seq![m[0]] + m.skip(1).push((k, v)));
        assert(seq![m[0]] + m.skip(1).push((k, v)) =~~= m.push((k, v)));
    }
}


/// Nesting weight of a frame, used as a termination measure for proofs
/// about the mutually recursive parse of frames, elements and entries.
pub open spec fn height_frame(f: FrameV) -> nat
    decreases f,
{
    match f {
        FrameV::Array(a) => match a {
            Option::Some(els) => 1 + height_els(els),
            Option::None => 1,
        },
        FrameV::Uniq(els) => 1 + height_els(els),
        FrameV::Dict(es) => 1 + height_entries(es),
        _ => 1,
    }
}

pub open spec fn height_els(els: Seq<FrameV>) -> nat
    decreases els,
{
    if els.len() == 0 {
        0
    } else {
        height_frame(els[0]) + height_els(els.drop_first())
    }
}

pub open spec fn height_entries(es: Seq<(Seq<u8>, FrameV)>) -> nat
    decreases es,
{
    if es.len() == 0 {
        0
    } else {
        height_frame(es[0].1) + height_entries(es.drop_first())
    }
}

} // verus!





