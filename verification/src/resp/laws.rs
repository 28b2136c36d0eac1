//! The laws of the codec: the encoder and the parser are mutually inverse
//! on well-formed frames, the length scanner agrees with the parser, and
//! decoded sets are duplicate-free.

use vstd::prelude::*;

use crate::resp::wire::CR;
use crate::resp::wire::LF;
use crate::resp::wire::FrameV;
use crate::resp::wire::SpecParse;
use crate::resp::wire::SpecScan;
use crate::resp::wire::SpecParseEntries;
use crate::resp::wire::SpecParseList;
use crate::resp::wire::all_digits;
use crate::resp::wire::clean_text;
use crate::resp::wire::crlf_at;
use crate::resp::wire::dec_digits;
use crate::resp::wire::dec_int;
use crate::resp::wire::dedup_els;
use crate::resp::wire::digit_run;
use crate::resp::wire::digits_val;
use crate::resp::wire::distinct_seq;
use crate::resp::wire::encodable;
use crate::resp::wire::encodable_els;
use crate::resp::wire::encodable_entries;
use crate::resp::wire::encode_els;
use crate::resp::wire::encode_entries;
use crate::resp::wire::encode_frame;
use crate::resp::wire::entry_keys;
use crate::resp::wire::first_crlf;
use crate::resp::wire::height_els;
use crate::resp::wire::height_entries;
use crate::resp::wire::height_frame;
use crate::resp::wire::in_i64;
use crate::resp::wire::is_decimal_from;
use crate::resp::wire::is_digit;
use crate::resp::wire::is_double_token;
use crate::resp::wire::is_exponent_from;
use crate::resp::wire::lemma_first_crlf_some;
use crate::resp::wire::map_from_entries;
use crate::resp::wire::no_crlf;
use crate::resp::wire::parse_els;
use crate::resp::wire::parse_frame_s;
use crate::resp::wire::parse_int_token;
use crate::resp::wire::parse_map_entries;
use crate::resp::wire::parse_value_then_entries;
use crate::resp::wire::scan_els;
use crate::resp::wire::scan_entries;
use crate::resp::wire::scan_frame_s;
use crate::resp::wire::scan_value_then_entries;
use crate::resp::wire::spec_crlf;

verus! {

// ---------------------------------------------------------------------------
// finding the CRLF of an emitted line
// ---------------------------------------------------------------------------

/// The first CRLF at or after `from` is the one at `e` when no pair stands
/// in between.
proof fn lemma_first_crlf_found(s: Seq<u8>, from: int, e: int)
    requires
        0 <= from <= e,
        crlf_at(s, e),
        forall|j: int| from <= j < e ==> !crlf_at(s, j),
    ensures
        first_crlf(s, from) == Some(e),
    decreases e - from,
{
    if from < e {
        assert(!crlf_at(s, from));
        lemma_first_crlf_found(s, from + 1, e);
    }
}

/// In `prefix + line + CRLF + rest` with a clean line, the first CRLF from
/// inside the line region is exactly the emitted one.
proof fn lemma_line_crlf(s: Seq<u8>, from: int, e: int)
    requires
        0 <= from <= e,
        crlf_at(s, e),
        forall|j: int| from <= j < e ==> #[trigger] s[j] != CR || s[j + 1] != LF,
    ensures
        first_crlf(s, from) == Some(e),
{
    assert forall|j: int| from <= j < e implies !crlf_at(s, j) by {
        assert(s[j] != CR || s[j + 1] != LF);
    }
    lemma_first_crlf_found(s, from, e);
}

// ---------------------------------------------------------------------------
// decimal round trip
// ---------------------------------------------------------------------------

/// The canonical digits of `n` are digits and read back as `n`.
proof fn lemma_dec_digits(n: nat)
    ensures
        all_digits(dec_digits(n)),
        digits_val(dec_digits(n)) == n,
        dec_digits(n).len() >= 1,
        forall|i: int| 0 <= i < dec_digits(n).len() ==> 48 <= #[trigger] dec_digits(n)[i] <= 57,
    decreases n,
{
    if n < 10 {
        assert(dec_digits(n) =~= seq![(48 + n) as u8]);
        assert(dec_digits(n).drop_last() =~= Seq::<u8>::empty());
        assert(digits_val(Seq::<u8>::empty()) == 0);
        assert(digits_val(dec_digits(n)) == 0 * 10 + n);
    } else {
        lemma_dec_digits(n / 10);
        let d = dec_digits(n / 10);
        let t = dec_digits(n);
        assert(t == d.push((48 + n % 10) as u8));
        assert(t.drop_last() =~= d);
        assert(digits_val(t) == digits_val(d) * 10 + (n % 10));
        assert(forall|i: int|
            0 <= i < t.len() ==> 48 <= #[trigger] t[i] <= 57) by {
            assert(forall|i: int| 0 <= i < d.len() ==> 48 <= #[trigger] d[i] <= 57);
        }
    }
}

/// The canonical form of `i` parses back as `i`.
proof fn lemma_dec_int(i: int)
    ensures
        parse_int_token(dec_int(i)) == Some(i),
        dec_int(i).len() >= 1,
        forall|j: int| 0 <= j < dec_int(i).len() ==> #[trigger] dec_int(i)[j] != CR && dec_int(
            i,
        )[j] != LF,
{
    if i < 0 {
        lemma_dec_digits((-i) as nat);
        let t = dec_int(i);
        assert(t[0] == 45);
        assert(t.skip(1) =~= dec_digits((-i) as nat));
    } else {
        lemma_dec_digits(i as nat);
        let t = dec_int(i);
        assert(t == dec_digits(i as nat));
        assert(is_digit(t[0]));
        assert(t[0] != 45 && t[0] != 43);
    }
}

// ---------------------------------------------------------------------------
// token cleanliness
// ---------------------------------------------------------------------------

/// A digit run contains digits.
proof fn lemma_digit_run_digits(t: Seq<u8>, from: int)
    requires
        0 <= from,
    ensures
        from + digit_run(t, from) <= t.len() || digit_run(t, from) == 0,
        forall|k: int| from <= k < from + digit_run(t, from) ==> is_digit(#[trigger] t[k]),
    decreases t.len() - from,
{
    if 0 <= from < t.len() && is_digit(t[from]) {
        lemma_digit_run_digits(t, from + 1);
    }
}

/// A valid double token holds neither CR nor LF.
proof fn lemma_double_token_clean(t: Seq<u8>)
    requires
        is_double_token(t),
    ensures
        clean_text(t),
{
    let u: int = if t.len() > 0 && (t[0] == 43 || t[0] == 45) {
        1
    } else {
        0
    };
    if t.skip(u) =~= seq![105u8, 110u8, 102u8] || t.skip(u) =~= seq![110u8, 97u8, 110u8] {
        assert forall|i: int| 0 <= i < t.len() implies t[i] != CR && t[i] != LF by {
            if i >= u {
                assert(t.skip(u)[i - u] == t[i]);
            }
        }
    } else {
        assert(is_decimal_from(t, u));
        let d1 = digit_run(t, u);
        lemma_digit_run_digits(t, u);
        let p = u + d1;
        assert forall|i: int| 0 <= i < t.len() implies t[i] != CR && t[i] != LF by {
            if i < u {
            } else if i < p {
                assert(is_digit(t[i]));
            } else if p == t.len() {
            } else if t[p] == 46 {
                let d2 = digit_run(t, p + 1);
                lemma_digit_run_digits(t, p + 1);
                let q = p + 1 + d2;
                if i == p {
                } else if i < q {
                    assert(is_digit(t[i]));
                } else {
                    lemma_exponent_clean(t, q, i);
                }
            } else {
                lemma_exponent_clean(t, p, i);
            }
        }
    }
}

/// Bytes of a valid exponent region are never CR or LF.
proof fn lemma_exponent_clean(t: Seq<u8>, from: int, i: int)
    requires
        is_exponent_from(t, from),
        from <= i < t.len(),
    ensures
        t[i] != CR && t[i] != LF,
{
    let r = if from + 1 < t.len() && (t[from + 1] == 43 || t[from + 1] == 45) {
        from + 2
    } else {
        from + 1
    };
    lemma_digit_run_digits(t, r);
    if i == from {
    } else if i < r {
    } else {
        assert(is_digit(t[i]));
    }
}

// ---------------------------------------------------------------------------
// de-duplication and keyed-insertion identities
// ---------------------------------------------------------------------------

/// De-duplication never invents or loses members and its result is
/// duplicate-free.
pub proof fn lemma_dedup_els_sound(els: Seq<FrameV>)
    ensures
        distinct_seq(dedup_els(els)),
        forall|x: FrameV| dedup_els(els).contains(x) <==> els.contains(x),
    decreases els.len(),
{
    if els.len() == 0 {
    } else {
        lemma_dedup_els_sound(els.drop_last());
        let prev = els.drop_last();
        let rest = dedup_els(prev);
        let lastx = els.last();
        let d = dedup_els(els);
        assert forall|x: FrameV| els.contains(x) <==> (prev.contains(x) || x == lastx) by {
            if els.contains(x) {
                let j = choose|j: int| 0 <= j < els.len() && els[j] == x;
                if j < els.len() - 1 {
                    assert(prev[j] == x);
                    assert(prev.contains(x));
                }
            }
            if prev.contains(x) {
                let j = choose|j: int| 0 <= j < prev.len() && prev[j] == x;
                assert(els[j] == x);
                assert(els.contains(x));
            }
            if x == lastx {
                assert(els[els.len() - 1] == x);
                assert(els.contains(x));
            }
        }
        if rest.contains(lastx) {
            assert(d == rest);
            assert forall|x: FrameV| d.contains(x) <==> els.contains(x) by {
                assert(rest.contains(x) <==> prev.contains(x));
            }
        } else {
            assert(d == rest.push(lastx));
            assert forall|x: FrameV| d.contains(x) <==> els.contains(x) by {
                if d.contains(x) {
                    let j = choose|j: int| 0 <= j < d.len() && d[j] == x;
                    if j < rest.len() {
                        assert(rest[j] == x);
                        assert(rest.contains(x));
                    } else {
                        assert(x == lastx);
                    }
                }
                if prev.contains(x) {
                    let j = choose|j: int| 0 <= j < rest.len() && rest[j] == x;
                    assert(d[j] == x);
                    assert(d.contains(x));
                }
                if x == lastx {
                    assert(d[d.len() - 1] == x);
                    assert(d.contains(x));
                }
            }
            assert forall|i: int, j: int| 0 <= i < j < d.len() implies d[i] != d[j] by {
                if j < d.len() - 1 {
                    assert(rest[i] != rest[j]);
                } else {
                    assert(d[j] == lastx);
                    assert(d[i] == rest[i]);
                    assert(rest.contains(rest[i]));
                    if d[i] == lastx {
                        assert(rest.contains(lastx));
                    }
                }
            }
        }
    }
}

/// De-duplicating a duplicate-free sequence changes nothing.
pub proof fn lemma_dedup_els_distinct(els: Seq<FrameV>)
    requires
        distinct_seq(els),
    ensures
        dedup_els(els) == els,
    decreases els.len(),
{
    if els.len() > 0 {
        assert(distinct_seq(els.drop_last())) by {
            assert(forall|i: int, j: int|
                0 <= i < j < els.drop_last().len() ==> els.drop_last()[i] != els.drop_last()[j])
                by {
                assert(forall|i: int, j: int| 0 <= i < j < els.len() ==> els[i] != els[j]);
            }
        }
        lemma_dedup_els_distinct(els.drop_last());
        assert(!els.drop_last().contains(els.last())) by {
            if els.drop_last().contains(els.last()) {
                let j = choose|j: int|
                    0 <= j < els.drop_last().len() && els.drop_last()[j] == els.last();
                assert(els[j] == els[els.len() - 1]);
            }
        }
        assert(dedup_els(els) =~= els.drop_last().push(els.last()));
        assert(els.drop_last().push(els.last()) =~= els);
    }
}

/// De-duplication is idempotent: the unique-element decoding of a set wire
/// form equals the decoding of its duplicate-free form.
pub proof fn lemma_dedup_els_idempotent(els: Seq<FrameV>)
    ensures
        dedup_els(dedup_els(els)) == dedup_els(els),
{
    lemma_dedup_els_sound(els);
    lemma_dedup_els_distinct(dedup_els(els));
}

/// Folding wire entries with distinct keys reproduces them unchanged.
proof fn lemma_map_from_entries_distinct(es: Seq<(Seq<u8>, FrameV)>)
    requires
        distinct_seq(entry_keys(es)),
    ensures
        map_from_entries(es) == es,
    decreases es.len(),
{
    if es.len() > 0 {
        let prev = es.drop_last();
        assert forall|i: int, j: int|
            0 <= i < j < entry_keys(prev).len() implies entry_keys(prev)[i] != entry_keys(
            prev,
        )[j] by {
            assert(entry_keys(prev)[i] == prev[i].0);
            assert(entry_keys(prev)[j] == prev[j].0);
            assert(entry_keys(es)[i] == es[i].0);
            assert(entry_keys(es)[j] == es[j].0);
            assert(entry_keys(es)[i] != entry_keys(es)[j]);
        }
        lemma_map_from_entries_distinct(prev);
        assert forall|j: int| 0 <= j < prev.len() implies (#[trigger] prev[j]).0
            != es.last().0 by {
            assert(entry_keys(es)[j] == es[j].0);
            assert(entry_keys(es)[es.len() - 1] == es.last().0);
            assert(entry_keys(es)[j] != entry_keys(es)[es.len() - 1]);
        }
        crate::resp::wire::lemma_map_put_append(prev, es.last().0, es.last().1);
        assert(prev.push(es.last()) =~= es);
    }
}


// ---------------------------------------------------------------------------
// the round trip: parsing an encoding yields the frame back
// ---------------------------------------------------------------------------

/// Facts about an emitted protocol line `c body CRLF tail` whose body holds
/// no CRLF pair.
proof fn lemma_emitted_line(c: u8, body: Seq<u8>, tail: Seq<u8>)
    requires
        no_crlf(body),
    ensures
        ({
            let s = seq![c] + body + spec_crlf() + tail;
            s[0] == c && crlf_at(s, 1 + body.len() as int) && first_crlf(s, 1) == Some(
                1 + body.len() as int,
            ) && s.subrange(1, 1 + body.len() as int) == body && s.len() == 3 + body.len()
                + tail.len()
        }),
{
    let s = seq![c] + body + spec_crlf() + tail;
    let e = 1 + body.len() as int;
    assert(s[e] == CR);
    assert(s[e + 1] == LF);
    assert(crlf_at(s, e));
    assert forall|j: int| 1 <= j < e implies #[trigger] s[j] != CR || s[j + 1] != LF by {
        assert(s[j] == body[j - 1]);
        if j + 1 < e {
            assert(s[j + 1] == body[j]);
            if s[j] == CR && s[j + 1] == LF {
                assert(crlf_at(body, j - 1));
            }
        } else {
            assert(s[j + 1] == CR);
        }
    }
    lemma_line_crlf(s, 1, e);
    assert(s.subrange(1, e) =~= body);
}

/// Text without CR or LF holds no CRLF pair.
proof fn lemma_clean_no_crlf(t: Seq<u8>)
    requires
        forall|j: int| 0 <= j < t.len() ==> #[trigger] t[j] != CR && t[j] != LF,
    ensures
        no_crlf(t),
{
    assert forall|i: int| !crlf_at(t, i) by {
        if 0 <= i && i + 2 <= t.len() {
            assert(t[i] != CR);
        }
    }
}

/// Parsing the encoding of a well-formed frame, with anything after it,
/// yields the frame and consumes exactly its encoding.
#[verifier::rlimit(100)]
pub proof fn lemma_parse_encoding(f: FrameV, rest: Seq<u8>)
    requires
        encodable(f),
    ensures
        parse_frame_s(encode_frame(f) + rest) == SpecParse::Done(
            f,
            encode_frame(f).len() as int,
        ),
    decreases height_frame(f), 0nat, 0nat,
{
    let enc = encode_frame(f);
    let s = enc + rest;
    match f {
        FrameV::SimpleString(txt) => {
            assert(s =~= seq![43u8] + txt + spec_crlf() + rest);
            lemma_emitted_line(43u8, txt, rest);
        },
        FrameV::Error(txt) => {
            assert(s =~= seq![45u8] + txt + spec_crlf() + rest);
            lemma_emitted_line(45u8, txt, rest);
        },
        FrameV::Integer(i) => {
            lemma_dec_int(i);
            lemma_clean_no_crlf(dec_int(i));
            assert(s =~= seq![58u8] + dec_int(i) + spec_crlf() + rest);
            lemma_emitted_line(58u8, dec_int(i), rest);
        },
        FrameV::Boolean(b) => {
            let body = seq![if b { 116u8 } else { 102u8 }];
            lemma_clean_no_crlf(body);
            assert(s =~= seq![35u8] + body + spec_crlf() + rest);
            lemma_emitted_line(35u8, body, rest);
            assert(s[1] == body[0]);
        },
        FrameV::Null => {
            let body = Seq::<u8>::empty();
            lemma_clean_no_crlf(body);
            assert(s =~= seq![95u8] + body + spec_crlf() + rest);
            lemma_emitted_line(95u8, body, rest);
        },
        FrameV::Double(t) => {
            lemma_double_token_clean(t);
            lemma_clean_no_crlf(t);
            assert(s =~= seq![44u8] + t + spec_crlf() + rest);
            lemma_emitted_line(44u8, t, rest);
        },
        FrameV::BulkString(d) => {
            match d {
                Option::None => {
                    let body = seq![45u8, 49u8];
                    lemma_clean_no_crlf(body);
                    assert(s =~= seq![36u8] + body + spec_crlf() + rest);
                    lemma_emitted_line(36u8, body, rest);
                    let t = s.subrange(1, 3);
                    assert(t[0] == 45);
                    assert(t.skip(1) =~= seq![49u8]);
                    assert(all_digits(t.skip(1)));
                    assert(t.skip(1).drop_last() =~= Seq::<u8>::empty());
                    assert(digits_val(Seq::<u8>::empty()) == 0);
                    assert(digits_val(t.skip(1)) == 1);
                    assert(parse_int_token(t) == Some(-1int));
                },
                Option::Some(data) => {
                    let body = dec_digits(data.len());
                    lemma_dec_digits(data.len());
                    lemma_clean_no_crlf(body);
                    let tail = data + spec_crlf() + rest;
                    assert(s =~= seq![36u8] + body + spec_crlf() + tail);
                    lemma_emitted_line(36u8, body, tail);
                    let e = 1 + body.len() as int;
                    let t = s.subrange(1, e);
                    assert(t[0] != 45 && t[0] != 43);
                    assert(parse_int_token(t) == Some(data.len() as int));
                    let v = data.len() as int;
                    assert(s.len() >= e + 2 + v + 2);
                    assert(s[e + 2 + v] == CR && s[e + 2 + v + 1] == LF) by {
                        assert(s =~= seq![36u8] + body + spec_crlf() + data + spec_crlf()
                            + rest);
                    }
                    assert(crlf_at(s, e + 2 + v));
                    assert(s.subrange(e + 2, e + 2 + v) =~= data);
                    assert(enc.len() == e + 2 + v + 2);
                },
            }
        },
        FrameV::Array(a) => {
            match a {
                Option::None => {
                    let body = seq![45u8, 49u8];
                    lemma_clean_no_crlf(body);
                    assert(s =~= seq![42u8] + body + spec_crlf() + rest);
                    lemma_emitted_line(42u8, body, rest);
                    let t = s.subrange(1, 3);
                    assert(t[0] == 45);
                    assert(t.skip(1) =~= seq![49u8]);
                    assert(t.skip(1).drop_last() =~= Seq::<u8>::empty());
                    assert(digits_val(Seq::<u8>::empty()) == 0);
                    assert(digits_val(t.skip(1)) == 1);
                    assert(parse_int_token(t) == Some(-1int));
                },
                Option::Some(els) => {
                    let body = dec_digits(els.len());
                    lemma_dec_digits(els.len());
                    lemma_clean_no_crlf(body);
                    let tail = encode_els(els) + rest;
                    assert(s =~= seq![42u8] + body + spec_crlf() + tail);
                    lemma_emitted_line(42u8, body, tail);
                    let e = 1 + body.len() as int;
                    let t = s.subrange(1, e);
                    assert(t[0] != 45 && t[0] != 43);
                    assert(parse_int_token(t) == Some(els.len() as int));
                    assert(s.skip(e + 2) =~= encode_els(els) + rest);
                    assert(height_els(els) < height_frame(f));
                    lemma_parse_els_encoding(els, rest);
                    assert(enc.len() == e + 2 + encode_els(els).len());
                },
            }
        },
        FrameV::Uniq(els) => {
            let body = dec_digits(els.len());
            lemma_dec_digits(els.len());
            lemma_clean_no_crlf(body);
            let tail = encode_els(els) + rest;
            assert(s =~= seq![126u8] + body + spec_crlf() + tail);
            lemma_emitted_line(126u8, body, tail);
            let e = 1 + body.len() as int;
            let t = s.subrange(1, e);
            assert(t[0] != 45 && t[0] != 43);
            assert(parse_int_token(t) == Some(els.len() as int));
            assert(s.skip(e + 2) =~= encode_els(els) + rest);
            assert(height_els(els) < height_frame(f));
            lemma_parse_els_encoding(els, rest);
            lemma_dedup_els_distinct(els);
            assert(enc.len() == e + 2 + encode_els(els).len());
        },
        FrameV::Dict(es) => {
            let body = dec_digits(es.len());
            lemma_dec_digits(es.len());
            lemma_clean_no_crlf(body);
            let tail = encode_entries(es) + rest;
            assert(s =~= seq![37u8] + body + spec_crlf() + tail);
            lemma_emitted_line(37u8, body, tail);
            let e = 1 + body.len() as int;
            let t = s.subrange(1, e);
            assert(t[0] != 45 && t[0] != 43);
            assert(parse_int_token(t) == Some(es.len() as int));
            assert(s.skip(e + 2) =~= encode_entries(es) + rest);
            assert(height_entries(es) < height_frame(f));
            lemma_parse_entries_encoding(es, rest);
            lemma_map_from_entries_distinct(es);
            assert(enc.len() == e + 2 + encode_entries(es).len());
        },
    }
}

/// Parsing the concatenated encodings of `els` (with anything after) gives
/// the elements back and consumes exactly their encodings.
#[verifier::rlimit(100)]
proof fn lemma_parse_els_encoding(els: Seq<FrameV>, rest: Seq<u8>)
    requires
        encodable_els(els),
    ensures
        parse_els(encode_els(els) + rest, els.len()) == SpecParseList::Done(
            els,
            encode_els(els).len() as int,
        ),
    decreases height_els(els), els.len(), 1nat,
{
    let s = encode_els(els) + rest;
    if els.len() == 0 {
        assert(encode_els(els) =~= Seq::<u8>::empty());
        assert(parse_els(s, 0) == SpecParseList::Done(Seq::<FrameV>::empty(), 0));
        assert(Seq::<FrameV>::empty() =~= els);
    } else {
        let head = els[0];
        let tail_els = els.drop_first();
        let rest2 = encode_els(tail_els) + rest;
        assert(s =~= encode_frame(head) + rest2);
        assert(height_els(els) == height_frame(head) + height_els(tail_els));
        lemma_parse_encoding(head, rest2);
        let k = encode_frame(head).len() as int;
        assert(k <= s.len());
        assert(s.skip(k) =~= rest2);
        lemma_parse_els_encoding(tail_els, rest);
        assert(seq![head] + tail_els =~= els);
        assert(encode_els(els).len() == k + encode_els(tail_els).len());
    }
}

/// Parsing the concatenated encodings of map entries (with anything after)
/// gives the raw entries back and consumes exactly their encodings.
#[verifier::rlimit(100)]
proof fn lemma_parse_entries_encoding(es: Seq<(Seq<u8>, FrameV)>, rest: Seq<u8>)
    requires
        encodable_entries(es),
    ensures
        parse_map_entries(encode_entries(es) + rest, es.len()) == SpecParseEntries::Done(
            es,
            encode_entries(es).len() as int,
        ),
    decreases height_entries(es), es.len(), 1nat,
{
    let s = encode_entries(es) + rest;
    if es.len() == 0 {
        assert(encode_entries(es) =~= Seq::<u8>::empty());
        assert(parse_map_entries(s, 0) == SpecParseEntries::Done(
            Seq::<(Seq<u8>, FrameV)>::empty(),
            0,
        ));
        assert(Seq::<(Seq<u8>, FrameV)>::empty() =~= es);
    } else {
        let key = es[0].0;
        let val = es[0].1;
        let tail_es = es.drop_first();
        let key_enc = seq![43u8] + key + spec_crlf();
        let val_rest = encode_frame(val) + (encode_entries(tail_es) + rest);
        assert(s =~= key_enc + val_rest);
        assert(s =~= encode_frame(FrameV::SimpleString(key)) + val_rest);
        // the key line parses as a simple string
        lemma_emitted_line(43u8, key, val_rest);
        assert(s =~= seq![43u8] + key + spec_crlf() + val_rest);
        let k = 3 + key.len() as int;
        assert(parse_frame_s(s) == SpecParse::Done(FrameV::SimpleString(key), k)) by {
            assert(first_crlf(s, 1) == Some(1 + key.len() as int));
            assert(s.subrange(1, 1 + key.len() as int) == key);
        }
        assert(k <= s.len());
        assert(s.skip(k) =~= val_rest);
        // the value frame
        assert(height_entries(es) == height_frame(val) + height_entries(tail_es));
        lemma_parse_encoding(val, encode_entries(tail_es) + rest);
        let vk = encode_frame(val).len() as int;
        assert(vk <= val_rest.len());
        assert(val_rest.skip(vk) =~= encode_entries(tail_es) + rest);
        // the remaining entries
        lemma_parse_entries_encoding(tail_es, rest);
        let es2 = seq![(Seq::<u8>::empty(), val)] + tail_es;
        assert(parse_value_then_entries(val_rest, (es.len() - 1) as nat)
            == SpecParseEntries::Done(es2, vk + encode_entries(tail_es).len()));
        assert(es2[0].1 == val);
        assert(es2.skip(1) =~= tail_es);
        assert(seq![(key, val)] + tail_es =~= es);
        assert(encode_entries(es).len() == k + vk + encode_entries(tail_es).len());
    }
}


// ---------------------------------------------------------------------------
// length agreement: the scanner frames exactly what the parser consumes
// ---------------------------------------------------------------------------

/// Wherever the parser succeeds, the length scanner reports exactly the
/// number of bytes the parser consumes.
pub proof fn lemma_length_agreement(s: Seq<u8>)
    ensures
        match parse_frame_s(s) {
            SpecParse::Done(_, n) => scan_frame_s(s) == SpecScan::Done(n),
            _ => true,
        },
    decreases s.len(), 0nat, 0nat,
{
    if s.len() == 0 {
    } else if s[0] == 43 || s[0] == 45 || s[0] == 58 || s[0] == 35 || s[0] == 95 || s[0] == 44 {
    } else if s[0] == 36 {
    } else if s[0] == 42 || s[0] == 126 {
        match first_crlf(s, 1) {
            Option::None => {},
            Option::Some(e) => {
                if !(e < 1 || e + 2 > s.len()) {
                    match parse_int_token(s.subrange(1, e)) {
                        Option::None => {},
                        Option::Some(v) => {
                            if in_i64(v) && v >= 0 {
                                lemma_scan_els_agreement(s.skip(e + 2), v as nat);
                            }
                        },
                    }
                }
            },
        }
    } else if s[0] == 37 {
        match first_crlf(s, 1) {
            Option::None => {},
            Option::Some(e) => {
                if !(e < 1 || e + 2 > s.len()) {
                    match parse_int_token(s.subrange(1, e)) {
                        Option::None => {},
                        Option::Some(v) => {
                            if in_i64(v) && v >= 1 {
                                lemma_scan_entries_agreement(s.skip(e + 2), v as nat);
                            }
                        },
                    }
                }
            },
        }
    }
}

proof fn lemma_scan_els_agreement(s: Seq<u8>, n: nat)
    ensures
        match parse_els(s, n) {
            SpecParseList::Done(_, m) => scan_els(s, n) == SpecScan::Done(m),
            _ => true,
        },
    decreases s.len(), n, 1nat,
{
    if n == 0 {
    } else {
        lemma_length_agreement(s);
        match parse_frame_s(s) {
            SpecParse::Done(f, k) => {
                if 0 <= k <= s.len() {
                    lemma_scan_els_agreement(s.skip(k), (n - 1) as nat);
                }
            },
            _ => {},
        }
    }
}

proof fn lemma_scan_entries_agreement(s: Seq<u8>, n: nat)
    ensures
        match parse_map_entries(s, n) {
            SpecParseEntries::Done(_, m) => scan_entries(s, n) == SpecScan::Done(m),
            _ => true,
        },
    decreases s.len(), n, 1nat,
{
    if n == 0 {
    } else {
        lemma_length_agreement(s);
        match parse_frame_s(s) {
            SpecParse::Done(kf, k) => {
                if 0 <= k <= s.len() {
                    match kf {
                        FrameV::SimpleString(key) => {
                            // a simple-string outcome comes only from the
                            // `+` branch, so the scanner takes the same line
                            assert(s.len() > 0 && s[0] == 43);
                            match first_crlf(s, 1) {
                                Option::Some(e) => {
                                    lemma_first_crlf_some(s, 1, e);
                                },
                                Option::None => {},
                            }
                            lemma_scan_vte_agreement(s.skip(k), (n - 1) as nat);
                        },
                        _ => {},
                    }
                }
            },
            _ => {},
        }
    }
}

proof fn lemma_scan_vte_agreement(s: Seq<u8>, n: nat)
    ensures
        match parse_value_then_entries(s, n) {
            SpecParseEntries::Done(_, m) => scan_value_then_entries(s, n) == SpecScan::Done(m),
            _ => true,
        },
    decreases s.len(), n, 2nat,
{
    lemma_length_agreement(s);
    match parse_frame_s(s) {
        SpecParse::Done(vf, k) => {
            if 0 <= k <= s.len() {
                lemma_scan_entries_agreement(s.skip(k), n);
            }
        },
        _ => {},
    }
}


// ---------------------------------------------------------------------------
// incrementality: prefixes are incomplete, extensions change nothing
// ---------------------------------------------------------------------------

/// A successful parse consumes between 3 bytes and the whole input.
pub proof fn lemma_parse_len(s: Seq<u8>)
    ensures
        match parse_frame_s(s) {
            SpecParse::Done(_, n) => 3 <= n <= s.len(),
            _ => true,
        },
    decreases s.len(), 0nat, 0nat,
{
    if s.len() == 0 {
    } else if s[0] == 43 || s[0] == 45 || s[0] == 58 || s[0] == 35 || s[0] == 95 || s[0] == 44
        || s[0] == 36 {
        match first_crlf(s, 1) {
            Option::Some(e) => {
                lemma_first_crlf_some(s, 1, e);
            },
            Option::None => {},
        }
    } else if s[0] == 42 || s[0] == 126 {
        match first_crlf(s, 1) {
            Option::Some(e) => {
                lemma_first_crlf_some(s, 1, e);
                if !(e < 1 || e + 2 > s.len()) {
                    match parse_int_token(s.subrange(1, e)) {
                        Option::Some(v) => {
                            if in_i64(v) && v >= 0 {
                                lemma_parse_els_len(s.skip(e + 2), v as nat);
                            }
                        },
                        Option::None => {},
                    }
                }
            },
            Option::None => {},
        }
    } else if s[0] == 37 {
        match first_crlf(s, 1) {
            Option::Some(e) => {
                lemma_first_crlf_some(s, 1, e);
                if !(e < 1 || e + 2 > s.len()) {
                    match parse_int_token(s.subrange(1, e)) {
                        Option::Some(v) => {
                            if in_i64(v) && v >= 1 {
                                lemma_parse_entries_len(s.skip(e + 2), v as nat);
                            }
                        },
                        Option::None => {},
                    }
                }
            },
            Option::None => {},
        }
    }
}

proof fn lemma_parse_els_len(s: Seq<u8>, n: nat)
    ensures
        match parse_els(s, n) {
            SpecParseList::Done(_, m) => 0 <= m <= s.len(),
            _ => true,
        },
    decreases s.len(), n, 1nat,
{
    if n > 0 {
        lemma_parse_len(s);
        match parse_frame_s(s) {
            SpecParse::Done(f, k) => {
                if 0 <= k <= s.len() {
                    lemma_parse_els_len(s.skip(k), (n - 1) as nat);
                }
            },
            _ => {},
        }
    }
}

proof fn lemma_parse_entries_len(s: Seq<u8>, n: nat)
    ensures
        match parse_map_entries(s, n) {
            SpecParseEntries::Done(_, m) => 0 <= m <= s.len(),
            _ => true,
        },
    decreases s.len(), n, 1nat,
{
    if n > 0 {
        lemma_parse_len(s);
        match parse_frame_s(s) {
            SpecParse::Done(kf, k) => {
                if 0 <= k <= s.len() {
                    lemma_parse_vte_len(s.skip(k), (n - 1) as nat);
                }
            },
            _ => {},
        }
    }
}

proof fn lemma_parse_vte_len(s: Seq<u8>, n: nat)
    ensures
        match parse_value_then_entries(s, n) {
            SpecParseEntries::Done(_, m) => 0 <= m <= s.len(),
            _ => true,
        },
    decreases s.len(), n, 2nat,
{
    lemma_parse_len(s);
    match parse_frame_s(s) {
        SpecParse::Done(vf, k) => {
            if 0 <= k <= s.len() {
                lemma_parse_entries_len(s.skip(k), n);
            }
        },
        _ => {},
    }
}

/// Nothing at or after `from` is a CRLF pair: the search fails.
proof fn lemma_first_crlf_absent(s: Seq<u8>, from: int)
    requires
        forall|j: int| j >= from ==> !crlf_at(s, j),
    ensures
        first_crlf(s, from) == None::<int>,
    decreases s.len() - from,
{
    if !(from < 0 || from + 2 > s.len()) {
        assert(!crlf_at(s, from));
        lemma_first_crlf_absent(s, from + 1);
    }
}

/// The parse outcome is a function of the consumed bytes alone: any input
/// agreeing on those bytes parses identically.
pub proof fn lemma_parse_prefix_determined(s: Seq<u8>, t: Seq<u8>)
    requires
        match parse_frame_s(s) {
            SpecParse::Done(_, n) => n <= t.len() && t.take(n) == s.take(n) && n <= s.len(),
            _ => false,
        },
    ensures
        parse_frame_s(t) == parse_frame_s(s),
    decreases s.len(), 0nat, 0nat,
{
    lemma_parse_len(s);
    let n = parse_frame_s(s)->Done_1;
    assert forall|j: int| 0 <= j < n implies t[j] == s[j] by {
        assert(t.take(n)[j] == s.take(n)[j]);
    }
    assert(t.len() > 0 && t[0] == s[0]);
    if s[0] == 43 || s[0] == 45 || s[0] == 58 || s[0] == 35 || s[0] == 95 || s[0] == 44 {
        let e = first_crlf(s, 1)->0;
        lemma_first_crlf_some(s, 1, e);
        assert(crlf_at(t, e));
        assert forall|j: int| 1 <= j < e implies !crlf_at(t, j) by {
            if crlf_at(t, j) {
                assert(t[j] == s[j] && t[j + 1] == s[j + 1]);
                assert(crlf_at(s, j));
            }
        }
        lemma_first_crlf_found(t, 1, e);
        assert(t.subrange(1, e) =~= s.subrange(1, e));
    } else if s[0] == 36 {
        let e = first_crlf(s, 1)->0;
        lemma_first_crlf_some(s, 1, e);
        assert(crlf_at(t, e));
        assert forall|j: int| 1 <= j < e implies !crlf_at(t, j) by {
            if crlf_at(t, j) {
                assert(t[j] == s[j] && t[j + 1] == s[j + 1]);
                assert(crlf_at(s, j));
            }
        }
        lemma_first_crlf_found(t, 1, e);
        assert(t.subrange(1, e) =~= s.subrange(1, e));
        match parse_int_token(s.subrange(1, e)) {
            Option::Some(v) => {
                if in_i64(v) && v >= 0 {
                    assert(t.len() >= e + 2 + v + 2);
                    assert(crlf_at(s, e + 2 + v) ==> crlf_at(t, e + 2 + v));
                    assert(crlf_at(t, e + 2 + v) ==> crlf_at(s, e + 2 + v)) by {
                        if crlf_at(t, e + 2 + v) {
                            assert(t[e + 2 + v] == s[e + 2 + v]);
                            assert(t[e + 2 + v + 1] == s[e + 2 + v + 1]);
                        }
                    }
                    if crlf_at(s, e + 2 + v) {
                        assert(t.subrange(e + 2, e + 2 + v) =~= s.subrange(e + 2, e + 2 + v));
                    }
                }
            },
            Option::None => {},
        }
    } else if s[0] == 42 || s[0] == 126 || s[0] == 37 {
        let e = first_crlf(s, 1)->0;
        lemma_first_crlf_some(s, 1, e);
        // the nested elements consume a non-negative number of bytes, so
        // the whole frame consumes at least its header line
        if !(e < 1 || e + 2 > s.len()) {
            match parse_int_token(s.subrange(1, e)) {
                Option::Some(v) => {
                    if in_i64(v) && v >= 0 && (s[0] == 42 || s[0] == 126) {
                        lemma_parse_els_len(s.skip(e + 2), v as nat);
                    }
                    if in_i64(v) && v >= 1 && s[0] == 37 {
                        lemma_parse_entries_len(s.skip(e + 2), v as nat);
                    }
                },
                Option::None => {},
            }
        }
        assert(n >= e + 2);
        assert(crlf_at(t, e));
        assert forall|j: int| 1 <= j < e implies !crlf_at(t, j) by {
            if crlf_at(t, j) {
                assert(t[j] == s[j] && t[j + 1] == s[j + 1]);
                assert(crlf_at(s, j));
            }
        }
        lemma_first_crlf_found(t, 1, e);
        assert(t.subrange(1, e) =~= s.subrange(1, e));
        match parse_int_token(s.subrange(1, e)) {
            Option::Some(v) => {
                if in_i64(v) && v >= 0 && (s[0] == 42 || s[0] == 126) {
                    match parse_els(s.skip(e + 2), v as nat) {
                        SpecParseList::Done(els, m) => {
                            assert(t.skip(e + 2).take(m) =~= s.skip(e + 2).take(m)) by {
                                assert forall|j: int|
                                    0 <= j < m implies #[trigger] t.skip(e + 2).take(m)[j]
                                    == s.skip(e + 2).take(m)[j] by {
                                    assert(t[e + 2 + j] == s[e + 2 + j]);
                                }
                            }
                            lemma_parse_els_prefix_determined(
                                s.skip(e + 2),
                                t.skip(e + 2),
                                v as nat,
                            );
                        },
                        _ => {},
                    }
                }
                if in_i64(v) && v >= 1 && s[0] == 37 {
                    match parse_map_entries(s.skip(e + 2), v as nat) {
                        SpecParseEntries::Done(es, m) => {
                            assert(t.skip(e + 2).take(m) =~= s.skip(e + 2).take(m)) by {
                                assert forall|j: int|
                                    0 <= j < m implies #[trigger] t.skip(e + 2).take(m)[j]
                                    == s.skip(e + 2).take(m)[j] by {
                                    assert(t[e + 2 + j] == s[e + 2 + j]);
                                }
                            }
                            lemma_parse_entries_prefix_determined(
                                s.skip(e + 2),
                                t.skip(e + 2),
                                v as nat,
                            );
                        },
                        _ => {},
                    }
                }
            },
            Option::None => {},
        }
    }
}

proof fn lemma_parse_els_prefix_determined(s: Seq<u8>, t: Seq<u8>, n: nat)
    requires
        match parse_els(s, n) {
            SpecParseList::Done(_, m) => m <= t.len() && t.take(m) == s.take(m) && m <= s.len(),
            _ => false,
        },
    ensures
        parse_els(t, n) == parse_els(s, n),
    decreases s.len(), n, 1nat,
{
    if n == 0 {
    } else {
        let m = parse_els(s, n)->Done_1;
        match parse_frame_s(s) {
            SpecParse::Done(f, k) => {
                lemma_parse_len(s);
                match parse_els(s.skip(k), (n - 1) as nat) {
                    SpecParseList::Done(els2, m2) => {
                        lemma_parse_els_len(s.skip(k), (n - 1) as nat);
                        assert(m == k + m2);
                        assert(t.take(k) =~= s.take(k)) by {
                            assert forall|j: int| 0 <= j < k implies t.take(k)[j] == s.take(
                                k,
                            )[j] by {
                                assert(t.take(m)[j] == s.take(m)[j]);
                            }
                        }
                        lemma_parse_prefix_determined(s, t);
                        assert(t.skip(k).take(m2) =~= s.skip(k).take(m2)) by {
                            assert forall|j: int| 0 <= j < m2 implies t.skip(k).take(m2)[j]
                                == s.skip(k).take(m2)[j] by {
                                assert(t.take(m)[k + j] == s.take(m)[k + j]);
                            }
                        }
                        lemma_parse_els_prefix_determined(s.skip(k), t.skip(k), (n - 1) as nat);
                    },
                    _ => {},
                }
            },
            _ => {},
        }
    }
}

proof fn lemma_parse_entries_prefix_determined(s: Seq<u8>, t: Seq<u8>, n: nat)
    requires
        match parse_map_entries(s, n) {
            SpecParseEntries::Done(_, m) => m <= t.len() && t.take(m) == s.take(m) && m
                <= s.len(),
            _ => false,
        },
    ensures
        parse_map_entries(t, n) == parse_map_entries(s, n),
    decreases s.len(), n, 1nat,
{
    if n == 0 {
    } else {
        let m = parse_map_entries(s, n)->Done_1;
        match parse_frame_s(s) {
            SpecParse::Done(kf, k) => {
                lemma_parse_len(s);
                match kf {
                    FrameV::SimpleString(_) => {
                        match parse_value_then_entries(s.skip(k), (n - 1) as nat) {
                            SpecParseEntries::Done(es2, m2) => {
                                lemma_parse_vte_len(s.skip(k), (n - 1) as nat);
                                assert(m == k + m2);
                                assert(t.take(k) =~= s.take(k)) by {
                                    assert forall|j: int| 0 <= j < k implies t.take(k)[j]
                                        == s.take(k)[j] by {
                                        assert(t.take(m)[j] == s.take(m)[j]);
                                    }
                                }
                                lemma_parse_prefix_determined(s, t);
                                assert(t.skip(k).take(m2) =~= s.skip(k).take(m2)) by {
                                    assert forall|j: int|
                                        0 <= j < m2 implies t.skip(k).take(m2)[j] == s.skip(
                                        k,
                                    ).take(m2)[j] by {
                                        assert(t.take(m)[k + j] == s.take(m)[k + j]);
                                    }
                                }
                                lemma_parse_vte_prefix_determined(
                                    s.skip(k),
                                    t.skip(k),
                                    (n - 1) as nat,
                                );
                            },
                            _ => {},
                        }
                    },
                    _ => {},
                }
            },
            _ => {},
        }
    }
}

proof fn lemma_parse_vte_prefix_determined(s: Seq<u8>, t: Seq<u8>, n: nat)
    requires
        match parse_value_then_entries(s, n) {
            SpecParseEntries::Done(_, m) => m <= t.len() && t.take(m) == s.take(m) && m
                <= s.len(),
            _ => false,
        },
    ensures
        parse_value_then_entries(t, n) == parse_value_then_entries(s, n),
    decreases s.len(), n, 2nat,
{
    let m = parse_value_then_entries(s, n)->Done_1;
    match parse_frame_s(s) {
        SpecParse::Done(vf, k) => {
            lemma_parse_len(s);
            match parse_map_entries(s.skip(k), n) {
                SpecParseEntries::Done(es2, m2) => {
                    lemma_parse_entries_len(s.skip(k), n);
                    assert(m == k + m2);
                    assert(t.take(k) =~= s.take(k)) by {
                        assert forall|j: int| 0 <= j < k implies t.take(k)[j] == s.take(
                            k,
                        )[j] by {
                            assert(t.take(m)[j] == s.take(m)[j]);
                        }
                    }
                    lemma_parse_prefix_determined(s, t);
                    assert(t.skip(k).take(m2) =~= s.skip(k).take(m2)) by {
                        assert forall|j: int| 0 <= j < m2 implies t.skip(k).take(m2)[j] == s.skip(
                            k,
                        ).take(m2)[j] by {
                            assert(t.take(m)[k + j] == s.take(m)[k + j]);
                        }
                    }
                    lemma_parse_entries_prefix_determined(s.skip(k), t.skip(k), n);
                },
                _ => {},
            }
        },
        _ => {},
    }
}


/// Cutting the input before the line end hides every CRLF pair.
proof fn lemma_first_crlf_cut(s: Seq<u8>, from: int, e: int, m: int)
    requires
        first_crlf(s, from) == Some(e),
        0 <= from,
        0 <= m < e + 2,
    ensures
        first_crlf(s.take(m), from) == None::<int>,
{
    lemma_first_crlf_some(s, from, e);
    assert forall|j: int| j >= from implies !crlf_at(s.take(m), j) by {
        if crlf_at(s.take(m), j) {
            assert(s.take(m)[j] == s[j]);
            assert(s.take(m)[j + 1] == s[j + 1]);
            assert(crlf_at(s, j));
            assert(j + 2 <= m);
            assert(j < e);
        }
    }
    lemma_first_crlf_absent(s.take(m), from);
}

/// A strict prefix of what a successful parse consumes is incomplete.
pub proof fn lemma_parse_take_incomplete(s: Seq<u8>, m: int)
    requires
        parse_frame_s(s) is Done,
        0 <= m < parse_frame_s(s)->Done_1,
    ensures
        parse_frame_s(s.take(m)) is Incomplete,
    decreases s.len(), 0nat, 0nat,
{
    lemma_parse_len(s);
    let n = parse_frame_s(s)->Done_1;
    let t = s.take(m);
    if m == 0 {
        assert(t.len() == 0);
    } else {
        assert(t[0] == s[0]);
        let e = first_crlf(s, 1)->0;
        lemma_first_crlf_some(s, 1, e);
        if s[0] == 43 || s[0] == 45 || s[0] == 58 || s[0] == 35 || s[0] == 95 || s[0] == 44 {
            lemma_first_crlf_cut(s, 1, e, m);
        } else if s[0] == 36 {
            if m < e + 2 {
                lemma_first_crlf_cut(s, 1, e, m);
            } else {
                assert(crlf_at(t, e));
                assert forall|j: int| 1 <= j < e implies !crlf_at(t, j) by {
                    if crlf_at(t, j) {
                        assert(t[j] == s[j] && t[j + 1] == s[j + 1]);
                        assert(crlf_at(s, j));
                    }
                }
                lemma_first_crlf_found(t, 1, e);
                assert(t.subrange(1, e) =~= s.subrange(1, e));
                assert(t.len() == m < n);
            }
        } else {
            // array, set or map
            if !(e < 1 || e + 2 > s.len()) {
                match parse_int_token(s.subrange(1, e)) {
                    Option::Some(v) => {
                        if in_i64(v) && v >= 0 && (s[0] == 42 || s[0] == 126) {
                            lemma_parse_els_len(s.skip(e + 2), v as nat);
                        }
                        if in_i64(v) && v >= 1 && s[0] == 37 {
                            lemma_parse_entries_len(s.skip(e + 2), v as nat);
                        }
                    },
                    Option::None => {},
                }
            }
            assert(n >= e + 2);
            if m < e + 2 {
                lemma_first_crlf_cut(s, 1, e, m);
            } else {
                assert(crlf_at(t, e));
                assert forall|j: int| 1 <= j < e implies !crlf_at(t, j) by {
                    if crlf_at(t, j) {
                        assert(t[j] == s[j] && t[j + 1] == s[j + 1]);
                        assert(crlf_at(s, j));
                    }
                }
                lemma_first_crlf_found(t, 1, e);
                assert(t.subrange(1, e) =~= s.subrange(1, e));
                assert(t.skip(e + 2) =~= s.skip(e + 2).take(m - (e + 2)));
                match parse_int_token(s.subrange(1, e)) {
                    Option::Some(v) => {
                        if in_i64(v) && v >= 0 && (s[0] == 42 || s[0] == 126) {
                            lemma_parse_els_take_incomplete(
                                s.skip(e + 2),
                                v as nat,
                                m - (e + 2),
                            );
                        }
                        if in_i64(v) && v >= 1 && s[0] == 37 {
                            lemma_parse_entries_take_incomplete(
                                s.skip(e + 2),
                                v as nat,
                                m - (e + 2),
                            );
                        }
                    },
                    Option::None => {},
                }
            }
        }
    }
}

proof fn lemma_parse_els_take_incomplete(s: Seq<u8>, n: nat, c: int)
    requires
        parse_els(s, n) is Done,
        0 <= c < parse_els(s, n)->Done_1,
    ensures
        parse_els(s.take(c), n) is Incomplete,
    decreases s.len(), n, 1nat,
{
    lemma_parse_els_len(s, n);
    match parse_frame_s(s) {
        SpecParse::Done(f, k) => {
            lemma_parse_len(s);
            lemma_parse_els_len(s.skip(k), (n - 1) as nat);
            if c < k {
                lemma_parse_take_incomplete(s, c);
            } else {
                assert(s.take(c).take(k) =~= s.take(k));
                lemma_parse_prefix_determined(s, s.take(c));
                assert(s.take(c).skip(k) =~= s.skip(k).take(c - k));
                lemma_parse_els_take_incomplete(s.skip(k), (n - 1) as nat, c - k);
            }
        },
        _ => {},
    }
}

proof fn lemma_parse_entries_take_incomplete(s: Seq<u8>, n: nat, c: int)
    requires
        parse_map_entries(s, n) is Done,
        0 <= c < parse_map_entries(s, n)->Done_1,
    ensures
        parse_map_entries(s.take(c), n) is Incomplete,
    decreases s.len(), n, 1nat,
{
    lemma_parse_entries_len(s, n);
    match parse_frame_s(s) {
        SpecParse::Done(kf, k) => {
            lemma_parse_len(s);
            match kf {
                FrameV::SimpleString(_) => {
                    lemma_parse_vte_len(s.skip(k), (n - 1) as nat);
                    if c < k {
                        lemma_parse_take_incomplete(s, c);
                    } else {
                        assert(s.take(c).take(k) =~= s.take(k));
                        lemma_parse_prefix_determined(s, s.take(c));
                        assert(s.take(c).skip(k) =~= s.skip(k).take(c - k));
                        lemma_parse_vte_take_incomplete(s.skip(k), (n - 1) as nat, c - k);
                    }
                },
                _ => {},
            }
        },
        _ => {},
    }
}

proof fn lemma_parse_vte_take_incomplete(s: Seq<u8>, n: nat, c: int)
    requires
        parse_value_then_entries(s, n) is Done,
        0 <= c < parse_value_then_entries(s, n)->Done_1,
    ensures
        parse_value_then_entries(s.take(c), n) is Incomplete,
    decreases s.len(), n, 2nat,
{
    lemma_parse_vte_len(s, n);
    match parse_frame_s(s) {
        SpecParse::Done(vf, k) => {
            lemma_parse_len(s);
            lemma_parse_entries_len(s.skip(k), n);
            if c < k {
                lemma_parse_take_incomplete(s, c);
            } else {
                assert(s.take(c).take(k) =~= s.take(k));
                lemma_parse_prefix_determined(s, s.take(c));
                assert(s.take(c).skip(k) =~= s.skip(k).take(c - k));
                lemma_parse_entries_take_incomplete(s.skip(k), n, c - k);
            }
        },
        _ => {},
    }
}

/// Incrementality: splitting a valid frame encoding anywhere, the first
/// part alone parses as incomplete, and the two parts fed together parse
/// exactly as the whole did.
pub proof fn lemma_incrementality(b: Seq<u8>, cut: int)
    requires
        parse_frame_s(b) is Done,
        0 <= cut < parse_frame_s(b)->Done_1,
    ensures
        parse_frame_s(b.take(cut)) is Incomplete,
        parse_frame_s(b.take(cut) + b.skip(cut)) == parse_frame_s(b),
{
    lemma_parse_take_incomplete(b, cut);
    lemma_parse_len(b);
    assert(b.take(cut) + b.skip(cut) =~= b);
}

/// Extending the input beyond a complete frame changes nothing about how
/// that frame parses.
pub proof fn lemma_parse_extension(b: Seq<u8>, ext: Seq<u8>)
    requires
        parse_frame_s(b) is Done,
    ensures
        parse_frame_s(b + ext) == parse_frame_s(b),
{
    lemma_parse_len(b);
    let n = parse_frame_s(b)->Done_1;
    assert((b + ext).take(n) =~= b.take(n));
    lemma_parse_prefix_determined(b, b + ext);
}


/// Round trip: decoding the encoding of any well-formed frame yields the
/// same frame, consuming exactly the encoding.
pub proof fn lemma_round_trip(f: FrameV)
    requires
        encodable(f),
    ensures
        parse_frame_s(encode_frame(f)) == SpecParse::Done(f, encode_frame(f).len() as int),
{
    lemma_parse_encoding(f, Seq::empty());
    assert(encode_frame(f) + Seq::<u8>::empty() =~= encode_frame(f));
}


/// Every set the parser produces is duplicate-free: a wire form with
/// repeated elements decodes to the same set as its unique-element form.
pub proof fn lemma_decoded_sets_distinct(s: Seq<u8>)
    ensures
        match parse_frame_s(s) {
            SpecParse::Done(f, _) => f is Uniq ==> distinct_seq(f->Uniq_0),
            _ => true,
        },
{
    if s.len() > 0 && s[0] == 126 {
        match first_crlf(s, 1) {
            Option::Some(e) => {
                if !(e < 1 || e + 2 > s.len()) {
                    match parse_int_token(s.subrange(1, e)) {
                        Option::Some(v) => {
                            if in_i64(v) && v >= 0 {
                                match parse_els(s.skip(e + 2), v as nat) {
                                    SpecParseList::Done(els, _) => {
                                        lemma_dedup_els_sound(els);
                                    },
                                    _ => {},
                                }
                            }
                        },
                        Option::None => {},
                    }
                }
            },
            Option::None => {},
        }
    }
}

} // verus!






