use vstd::prelude::*;

use crate::value::{
    deep_entries, deep_seq, lemma_deep_dictionary, lemma_deep_list, lemma_deep_seq_push,
    lemma_lex_skip, lemma_lex_strict, lemma_lex_total, lemma_lex_trans, lex_lt, wf, SpecValue,
    Value,
};

verus! {

/// Why a buffer failed to decode. `UnexpectedByte` and
/// `InvalidByteStringLength` carry the offset at which the byte or the
/// length field was observed, measured from the start of the production
/// being parsed (the integer's digit span, the byte string's length field,
/// the list or dictionary body). `ParseInt` reports a digit span that does
/// not convert to a machine integer (empty, a bare minus sign, or a
/// magnitude out of range); `Utf8` stands for a text-decoding failure of a
/// digit span, which a scanned span (always ASCII) never produces.
#[derive(Debug, Clone, Copy, PartialEq, Eq)]
pub enum DecodeError {
    UnexpectedByte((u8, usize)),
    UnexpectedEndOfFile,
    InvalidByteStringLength((usize, usize)),
    Utf8,
    ParseInt,
}

/// An ASCII decimal digit.
pub open spec fn is_digit(b: u8) -> bool {
    48 <= b <= 57
}

/// The value of a decimal digit string, most significant digit first.
pub open spec fn digits_val(s: Seq<u8>) -> int
    decreases s.len(),
{
    if s.len() == 0 {
        0
    } else {
        10 * digits_val(s.drop_last()) + (s.last() - 48)
    }
}

pub proof fn lemma_digits_val_nonneg(s: Seq<u8>)
    requires
        forall|j: int| 0 <= j < s.len() ==> is_digit(#[trigger] s[j]),
    ensures
        digits_val(s) >= 0,
    decreases s.len(),
{
    if s.len() > 0 {
        lemma_digits_val_nonneg(s.drop_last());
    }
}

/// A digit string is worth at least any of its prefixes.
pub proof fn lemma_digits_val_prefix(s: Seq<u8>, j: int)
    requires
        forall|p: int| 0 <= p < s.len() ==> is_digit(#[trigger] s[p]),
        0 <= j <= s.len(),
    ensures
        digits_val(s.take(j)) <= digits_val(s),
    decreases s.len(),
{
    if j == s.len() {
        assert(s.take(j) =~= s);
    } else if s.len() > 0 {
        lemma_digits_val_nonneg(s.drop_last());
        lemma_digits_val_prefix(s.drop_last(), j);
        assert(s.drop_last().take(j) =~= s.take(j));
    }
}

/// Appending one digit multiplies the value by ten and adds the digit.
pub proof fn lemma_digits_val_step(s: Seq<u8>, j: int)
    requires
        0 <= j < s.len(),
    ensures
        digits_val(s.take(j + 1)) == 10 * digits_val(s.take(j)) + (s[j] - 48),
{
    assert(s.take(j + 1).drop_last() =~= s.take(j));
    assert(s.take(j + 1).last() == s[j]);
}

/// Scans the body of an integer production: an optional minus sign at
/// offset 0, then digits, then the terminating `e`; yields the offset of
/// the `e`.
pub open spec fn int_scan(s: Seq<u8>, i: int) -> Result<int, DecodeError>
    decreases s.len() - i,
{
    if i < 0 || i >= s.len() {
        Err(DecodeError::UnexpectedEndOfFile)
    } else if s[i] == 45 && i == 0 {
        int_scan(s, 1)
    } else if is_digit(s[i]) {
        int_scan(s, i + 1)
    } else if s[i] == 101 {
        Ok(i)
    } else {
        Err(DecodeError::UnexpectedByte((s[i], i as usize)))
    }
}

/// The signed value of an integer's digit span (an optional minus sign,
/// then decimal digits).
pub open spec fn int_span_val(span: Seq<u8>) -> int {
    if span.len() > 0 && span[0] == 45 {
        -digits_val(span.drop_first())
    } else {
        digits_val(span)
    }
}

/// Whether an integer's digit span converts to a machine integer: it is not
/// empty, not a bare minus sign, and its value fits in `isize`.
pub open spec fn int_span_ok(span: Seq<u8>) -> bool {
    &&& span.len() > 0
    &&& !(span[0] == 45 && span.len() == 1)
    &&& isize::MIN <= int_span_val(span) <= isize::MAX
}

/// What decoding an integer body (the bytes after the leading `i`) yields:
/// the integer and the count of consumed bytes, or the error, positioned
/// within the body.
pub open spec fn spec_decode_integer(s: Seq<u8>) -> Result<(SpecValue, int), DecodeError> {
    match int_scan(s, 0) {
        Ok(epos) => {
            let span = s.take(epos);
            if int_span_ok(span) {
                Ok((SpecValue::Int(int_span_val(span)), epos + 1))
            } else {
                Err(DecodeError::ParseInt)
            }
        },
        Err(e) => Err(e),
    }
}

/// Scans a byte string's length field: digits, then the separating `:`;
/// yields the offset of the `:`.
pub open spec fn len_scan(s: Seq<u8>, i: int) -> Result<int, DecodeError>
    decreases s.len() - i,
{
    if i < 0 || i >= s.len() {
        Err(DecodeError::UnexpectedEndOfFile)
    } else if is_digit(s[i]) {
        len_scan(s, i + 1)
    } else if s[i] == 58 {
        Ok(i)
    } else {
        Err(DecodeError::UnexpectedByte((s[i], i as usize)))
    }
}

/// What decoding a byte string (`<length>:<payload>`) yields.
pub open spec fn spec_decode_byte_string(s: Seq<u8>) -> Result<(SpecValue, int), DecodeError> {
    match len_scan(s, 0) {
        Ok(colon) => {
            let span = s.take(colon);
            if span.len() == 0 || digits_val(span) > usize::MAX {
                Err(DecodeError::ParseInt)
            } else {
                let length = digits_val(span);
                if colon + 1 + length > s.len() {
                    Err(DecodeError::InvalidByteStringLength((length as usize, colon as usize)))
                } else {
                    Ok(
                        (
                            SpecValue::Bytes(s.subrange(colon + 1, colon + 1 + length)),
                            colon + 1 + length,
                        ),
                    )
                }
            }
        },
        Err(e) => Err(e),
    }
}

/// Inserts a key into a key-sorted entry sequence, replacing the value if
/// the key is already present.
pub open spec fn dict_insert(
    d: Seq<(Seq<u8>, SpecValue)>,
    k: Seq<u8>,
    v: SpecValue,
) -> Seq<(Seq<u8>, SpecValue)>
    decreases d.len(),
{
    if d.len() == 0 {
        seq![(k, v)]
    } else if lex_lt(k, d[0].0) {
        seq![(k, v)] + d
    } else if k == d[0].0 {
        seq![(k, v)] + d.drop_first()
    } else {
        seq![d[0]] + dict_insert(d.drop_first(), k, v)
    }
}

/// What decoding one bencode value from the start of `s` yields: the value
/// and the count of consumed bytes, or the error, with its offset measured
/// from the start of the production in which the offending byte stands.
pub open spec fn spec_decode_bytes(s: Seq<u8>) -> Result<(SpecValue, int), DecodeError>
    decreases s.len(), 0int,
{
    if s.len() == 0 {
        Err(DecodeError::UnexpectedEndOfFile)
    } else if s[0] == 105 {
        match spec_decode_integer(s.drop_first()) {
            Ok((v, n)) => Ok((v, n + 1)),
            Err(e) => Err(e),
        }
    } else if is_digit(s[0]) {
        spec_decode_byte_string(s)
    } else if s[0] == 108 {
        match spec_decode_list(s.drop_first(), Seq::empty()) {
            Ok((v, n)) => Ok((v, n + 1)),
            Err(e) => Err(e),
        }
    } else if s[0] == 100 {
        match spec_decode_dict(s.drop_first(), Seq::empty()) {
            Ok((v, n)) => Ok((v, n + 1)),
            Err(e) => Err(e),
        }
    } else {
        Err(DecodeError::UnexpectedByte((s[0], 0)))
    }
}

/// What decoding the remainder of a list body yields, with `acc` the
/// elements already decoded. The count is of bytes consumed from `s`,
/// including the terminating `e`.
pub open spec fn spec_decode_list(s: Seq<u8>, acc: Seq<SpecValue>) -> Result<
    (SpecValue, int),
    DecodeError,
>
    decreases s.len(), 1int,
{
    if s.len() == 0 {
        Err(DecodeError::UnexpectedEndOfFile)
    } else if s[0] == 101 {
        Ok((SpecValue::List(acc), 1))
    } else {
        match spec_decode_bytes(s) {
            Ok((v, n)) => {
                if 1 <= n <= s.len() {
                    match spec_decode_list(s.skip(n), acc.push(v)) {
                        Ok((lv, m)) => Ok((lv, n + m)),
                        Err(e) => Err(e),
                    }
                } else {
                    Err(DecodeError::UnexpectedEndOfFile)
                }
            },
            Err(e) => Err(e),
        }
    }
}

/// What decoding the remainder of a dictionary body yields, with `acc` the
/// entries already decoded, kept key-sorted. Keys arriving in any order
/// land in their sorted position; a repeated key replaces the earlier
/// value.
pub open spec fn spec_decode_dict(s: Seq<u8>, acc: Seq<(Seq<u8>, SpecValue)>) -> Result<
    (SpecValue, int),
    DecodeError,
>
    decreases s.len(), 1int,
{
    if s.len() == 0 {
        Err(DecodeError::UnexpectedEndOfFile)
    } else if s[0] == 101 {
        Ok((SpecValue::Dict(acc), 1))
    } else {
        match spec_decode_byte_string(s) {
            Ok((kv, n1)) => {
                if 1 <= n1 <= s.len() {
                    match spec_decode_bytes(s.skip(n1)) {
                        Ok((v, n2)) => {
                            if 1 <= n2 <= s.len() - n1 {
                                match spec_decode_dict(
                                    s.skip(n1 + n2),
                                    dict_insert(acc, kv->Bytes_0, v),
                                ) {
                                    Ok((dv, m)) => Ok((dv, n1 + n2 + m)),
                                    Err(e) => Err(e),
                                }
                            } else {
                                Err(DecodeError::UnexpectedEndOfFile)
                            }
                        },
                        Err(e) => Err(e),
                    }
                } else {
                    Err(DecodeError::UnexpectedEndOfFile)
                }
            },
            Err(e) => Err(e),
        }
    }
}

/// What decoding a whole buffer yields: the value decoded from offset 0.
/// Trailing bytes after one complete value are ignored.
pub open spec fn spec_decode(s: Seq<u8>) -> Result<SpecValue, DecodeError> {
    match spec_decode_bytes(s) {
        Ok((v, n)) => Ok(v),
        Err(e) => Err(e),
    }
}

/// A successful integer scan ends at an `e` inside the buffer, after a span
/// of digits with at most a leading minus sign.
pub proof fn lemma_int_scan_shape(s: Seq<u8>, i: int)
    requires
        0 <= i <= s.len(),
    ensures
        int_scan(s, i) matches Ok(epos) ==> i <= epos < s.len() && s[epos] == 101 && forall|j: int|
            i <= j < epos ==> ((s[j] == 45 && j == 0) || is_digit(#[trigger] s[j])),
    decreases s.len() - i,
{
    if i < s.len() && ((s[i] == 45 && i == 0) || is_digit(s[i])) {
        lemma_int_scan_shape(s, i + 1);
    }
}

/// A successful length scan ends at a `:` inside the buffer, after digits.
pub proof fn lemma_len_scan_shape(s: Seq<u8>, i: int)
    requires
        0 <= i <= s.len(),
    ensures
        len_scan(s, i) matches Ok(colon) ==> i <= colon < s.len() && s[colon] == 58 && forall|
            j: int,
        |
            i <= j < colon ==> is_digit(#[trigger] s[j]),
    decreases s.len() - i,
{
    if i < s.len() && is_digit(s[i]) {
        lemma_len_scan_shape(s, i + 1);
    }
}

/// A decoded integer production consumes at least two bytes and yields a
/// well-formed integer.
pub proof fn lemma_decode_integer_props(s: Seq<u8>)
    ensures
        spec_decode_integer(s) matches Ok((v, n)) ==> 2 <= n <= s.len() && v is Int && wf(v),
{
    lemma_int_scan_shape(s, 0);
}

/// A decoded byte string consumes at least two bytes and yields a
/// well-formed byte string.
pub proof fn lemma_decode_byte_string_props(s: Seq<u8>)
    ensures
        spec_decode_byte_string(s) matches Ok((v, n)) ==> 2 <= n <= s.len() && v is Bytes
            && v->Bytes_0.len() <= usize::MAX,
{
    lemma_len_scan_shape(s, 0);
    match len_scan(s, 0) {
        Ok(colon) => {
            let span = s.take(colon);
            if span.len() > 0 && digits_val(span) <= usize::MAX {
                assert(forall|p: int| 0 <= p < span.len() ==> is_digit(#[trigger] span[p]));
                lemma_digits_val_nonneg(span);
            }
        },
        Err(e) => {},
    }
}

/// Every entry of an insertion result keeps any strict lower bound that the
/// inserted key and all existing keys respect.
pub proof fn lemma_dict_insert_lower_bound(
    d: Seq<(Seq<u8>, SpecValue)>,
    k: Seq<u8>,
    v: SpecValue,
    lo: Seq<u8>,
)
    requires
        lex_lt(lo, k),
        forall|i: int| 0 <= i < d.len() ==> lex_lt(lo, (#[trigger] d[i]).0),
    ensures
        forall|i: int|
            0 <= i < dict_insert(d, k, v).len() ==> lex_lt(lo, (#[trigger] dict_insert(d, k, v)[i]).0),
    decreases d.len(),
{
    let r = dict_insert(d, k, v);
    if d.len() == 0 {
        assert(r == seq![(k, v)]);
    } else if lex_lt(k, d[0].0) {
        assert(r == seq![(k, v)] + d);
        assert forall|i: int| 0 <= i < r.len() implies lex_lt(lo, (#[trigger] r[i]).0) by {
            if i > 0 {
                assert(r[i] == d[i - 1]);
            }
        }
    } else if k == d[0].0 {
        assert(r == seq![(k, v)] + d.drop_first());
        assert forall|i: int| 0 <= i < r.len() implies lex_lt(lo, (#[trigger] r[i]).0) by {
            if i > 0 {
                assert(r[i] == d[i]);
            }
        }
    } else {
        assert(forall|i: int|
            0 <= i < d.drop_first().len() ==> lex_lt(lo, (#[trigger] d.drop_first()[i]).0));
        lemma_dict_insert_lower_bound(d.drop_first(), k, v, lo);
        let inner = dict_insert(d.drop_first(), k, v);
        assert(r == seq![d[0]] + inner);
        assert forall|i: int| 0 <= i < r.len() implies lex_lt(lo, (#[trigger] r[i]).0) by {
            if i > 0 {
                assert(r[i] == inner[i - 1]);
            }
        }
    }
}

/// Inserting a well-formed entry into a well-formed dictionary body keeps
/// it well-formed: values stay well-formed and keys stay strictly sorted.
pub proof fn lemma_dict_insert_wf(d: Seq<(Seq<u8>, SpecValue)>, k: Seq<u8>, v: SpecValue)
    requires
        wf(SpecValue::Dict(d)),
        k.len() <= usize::MAX,
        wf(v),
    ensures
        wf(SpecValue::Dict(dict_insert(d, k, v))),
    decreases d.len(),
{
    let r = dict_insert(d, k, v);
    assert(SpecValue::Dict(d)->Dict_0 == d);
    assert(forall|i: int, j: int|
        0 <= i < j < d.len() ==> lex_lt((#[trigger] d[i]).0, (#[trigger] d[j]).0));
    assert(forall|i: int| 0 <= i < d.len() ==> (#[trigger] d[i]).0.len() <= usize::MAX && wf(
        d[i].1,
    ));
    if d.len() == 0 {
        assert(wf(SpecValue::Dict(r)));
    } else {
        lemma_lex_total(k, d[0].0);
        lemma_lex_strict(k, d[0].0);
        if lex_lt(k, d[0].0) {
            assert(r == seq![(k, v)] + d);
            assert forall|i: int, j: int| 0 <= i < j < r.len() implies lex_lt(
                (#[trigger] r[i]).0,
                (#[trigger] r[j]).0,
            ) by {
                if i == 0 {
                    assert(r[j] == d[j - 1]);
                    if j > 1 {
                        lemma_lex_trans(k, d[0].0, d[j - 1].0);
                    }
                } else {
                    assert(r[i] == d[i - 1]);
                    assert(r[j] == d[j - 1]);
                }
            }
            assert(wf(SpecValue::Dict(r)));
        } else if k == d[0].0 {
            assert(r == seq![(k, v)] + d.drop_first());
            assert forall|i: int, j: int| 0 <= i < j < r.len() implies lex_lt(
                (#[trigger] r[i]).0,
                (#[trigger] r[j]).0,
            ) by {
                if i == 0 {
                    assert(r[j] == d.drop_first()[j - 1]);
                    assert(d.drop_first()[j - 1] == d[j]);
                } else {
                    assert(r[i] == d[i]);
                    assert(r[j] == d[j]);
                }
            }
            assert(wf(SpecValue::Dict(r)));
        } else {
            let d1 = d.drop_first();
            assert(wf(SpecValue::Dict(d1))) by {
                assert(forall|i: int| 0 <= i < d1.len() ==> (#[trigger] d1[i]) == d[i + 1]);
            }
            lemma_dict_insert_wf(d1, k, v);
            assert(forall|i: int| 0 <= i < d1.len() ==> lex_lt(d[0].0, (#[trigger] d1[i]).0)) by {
                assert(forall|i: int| 0 <= i < d1.len() ==> (#[trigger] d1[i]) == d[i + 1]);
            }
            lemma_dict_insert_lower_bound(d1, k, v, d[0].0);
            let inner = dict_insert(d1, k, v);
            assert(SpecValue::Dict(inner)->Dict_0 == inner);
            assert(forall|i: int, j: int|
                0 <= i < j < inner.len() ==> lex_lt(
                    (#[trigger] inner[i]).0,
                    (#[trigger] inner[j]).0,
                ));
            assert(forall|i: int|
                0 <= i < inner.len() ==> (#[trigger] inner[i]).0.len() <= usize::MAX && wf(
                    inner[i].1,
                ));
            assert(r == seq![d[0]] + inner);
            assert forall|i: int, j: int| 0 <= i < j < r.len() implies lex_lt(
                (#[trigger] r[i]).0,
                (#[trigger] r[j]).0,
            ) by {
                if i == 0 {
                    assert(r[j] == inner[j - 1]);
                } else {
                    assert(r[i] == inner[i - 1]);
                    assert(r[j] == inner[j - 1]);
                }
            }
            assert forall|i: int|
                0 <= i < r.len() implies (#[trigger] r[i]).0.len() <= usize::MAX && wf(r[i].1) by {
                if i > 0 {
                    assert(r[i] == inner[i - 1]);
                }
            }
            assert(wf(SpecValue::Dict(r)));
        }
    }
}

/// A successfully decoded value consumes at least two bytes, at most the
/// whole window, and is well-formed.
pub proof fn lemma_decode_bytes_props(s: Seq<u8>)
    ensures
        spec_decode_bytes(s) matches Ok((v, n)) ==> 2 <= n <= s.len() && wf(v),
    decreases s.len(), 0int,
{
    if s.len() == 0 {
    } else if s[0] == 105 {
        lemma_decode_integer_props(s.drop_first());
    } else if is_digit(s[0]) {
        lemma_decode_byte_string_props(s);
    } else if s[0] == 108 {
        lemma_decode_list_props(s.drop_first(), Seq::empty());
    } else if s[0] == 100 {
        assert(wf(SpecValue::Dict(Seq::empty())));
        lemma_decode_dict_props(s.drop_first(), Seq::empty());
    }
}

/// List bodies: consumption is bounded and the list of well-formed
/// accumulated elements stays well-formed.
pub proof fn lemma_decode_list_props(s: Seq<u8>, acc: Seq<SpecValue>)
    requires
        forall|i: int| 0 <= i < acc.len() ==> wf(#[trigger] acc[i]),
    ensures
        spec_decode_list(s, acc) matches Ok((v, n)) ==> 1 <= n <= s.len() && v is List && wf(v),
    decreases s.len(), 1int,
{
    if s.len() == 0 {
    } else if s[0] == 101 {
        assert(wf(SpecValue::List(acc)));
    } else {
        lemma_decode_bytes_props(s);
        match spec_decode_bytes(s) {
            Ok((v, n)) => {
                if 1 <= n <= s.len() {
                    assert(forall|i: int|
                        0 <= i < acc.push(v).len() ==> wf(#[trigger] acc.push(v)[i]));
                    lemma_decode_list_props(s.skip(n), acc.push(v));
                }
            },
            Err(e) => {},
        }
    }
}

/// Dictionary bodies: consumption is bounded and the dictionary stays
/// well-formed, keys strictly sorted.
pub proof fn lemma_decode_dict_props(s: Seq<u8>, acc: Seq<(Seq<u8>, SpecValue)>)
    requires
        wf(SpecValue::Dict(acc)),
    ensures
        spec_decode_dict(s, acc) matches Ok((v, n)) ==> 1 <= n <= s.len() && v is Dict && wf(v),
    decreases s.len(), 1int,
{
    if s.len() == 0 {
    } else if s[0] == 101 {
    } else {
        lemma_decode_byte_string_props(s);
        match spec_decode_byte_string(s) {
            Ok((kv, n1)) => {
                if 1 <= n1 <= s.len() {
                    lemma_decode_bytes_props(s.skip(n1));
                    match spec_decode_bytes(s.skip(n1)) {
                        Ok((v, n2)) => {
                            if 1 <= n2 <= s.len() - n1 {
                                lemma_dict_insert_wf(acc, kv->Bytes_0, v);
                                lemma_decode_dict_props(
                                    s.skip(n1 + n2),
                                    dict_insert(acc, kv->Bytes_0, v),
                                );
                            }
                        },
                        Err(e) => {},
                    }
                }
            },
            Err(e) => {},
        }
    }
}

/// The executable result agrees with what the specification says decoding
/// yields: the same value (up to its mathematical view), the same count of
/// consumed bytes, and the same error.
pub open spec fn result_matches(
    r: Result<(Value, usize), DecodeError>,
    m: Result<(SpecValue, int), DecodeError>,
) -> bool {
    match r {
        Ok((v, n)) => m == Ok::<(SpecValue, int), DecodeError>((v.deep(), n as int)),
        Err(e) => m == Err::<(SpecValue, int), DecodeError>(e),
    }
}

/// Shifts the consumed-byte count of a decode outcome by `k`.
pub open spec fn shift_consumed(m: Result<(SpecValue, int), DecodeError>, k: int) -> Result<
    (SpecValue, int),
    DecodeError,
> {
    match m {
        Ok((v, n)) => Ok((v, n + k)),
        Err(e) => Err(e),
    }
}

/// Finds the `e` that terminates an integer body.
fn scan_int_end(source: &[u8]) -> (r: Result<usize, DecodeError>)
    ensures
        match r {
            Ok(epos) => int_scan(source@, 0) == Ok::<int, DecodeError>(epos as int),
            Err(e) => int_scan(source@, 0) == Err::<int, DecodeError>(e),
        },
{
    let ghost s = source@;
    let mut index: usize = 0;
    loop
        invariant
            index <= s.len(),
            s == source@,
            int_scan(s, 0) == int_scan(s, index as int),
        decreases s.len() - index,
    {
        if index >= source.len() {
            return Err(DecodeError::UnexpectedEndOfFile);
        }
        let b = source[index];
        if b == 45 && index == 0 {
            index = 1;
        } else if 48 <= b && b <= 57 {
            index = index + 1;
        } else if b == 101 {
            return Ok(index);
        } else {
            return Err(DecodeError::UnexpectedByte((b, index)));
        }
    }
}

/// Finds the `:` that terminates a byte string's length field.
fn scan_len_end(source: &[u8]) -> (r: Result<usize, DecodeError>)
    ensures
        match r {
            Ok(colon) => len_scan(source@, 0) == Ok::<int, DecodeError>(colon as int),
            Err(e) => len_scan(source@, 0) == Err::<int, DecodeError>(e),
        },
{
    let ghost s = source@;
    let mut index: usize = 0;
    loop
        invariant
            index <= s.len(),
            s == source@,
            len_scan(s, 0) == len_scan(s, index as int),
        decreases s.len() - index,
    {
        if index >= source.len() {
            return Err(DecodeError::UnexpectedEndOfFile);
        }
        let b = source[index];
        if 48 <= b && b <= 57 {
            index = index + 1;
        } else if b == 58 {
            return Ok(index);
        } else {
            return Err(DecodeError::UnexpectedByte((b, index)));
        }
    }
}

/// Converts an integer's digit span `source[..end]` to a machine integer,
/// as the specification's `int_span_val` defines it, rejecting spans whose
/// value does not fit.
#[verifier::loop_isolation(false)]
fn parse_int_span(source: &[u8], end: usize) -> (r: Result<isize, DecodeError>)
    requires
        end <= source@.len(),
        forall|j: int|
            0 <= j < end ==> ((source@[j] == 45 && j == 0) || is_digit(#[trigger] source@[j])),
    ensures
        match r {
            Ok(value) => int_span_ok(source@.take(end as int)) && value as int == int_span_val(
                source@.take(end as int),
            ),
            Err(e) => e == DecodeError::ParseInt && !int_span_ok(source@.take(end as int)),
        },
{
    let ghost s = source@;
    let ghost span = s.take(end as int);
    if end == 0 {
        return Err(DecodeError::ParseInt);
    }
    let neg = source[0] == 45;
    if neg && end == 1 {
        return Err(DecodeError::ParseInt);
    }
    let start: usize = if neg {
        1
    } else {
        0
    };
    let ghost dspan = s.subrange(start as int, end as int);
    proof {
        if neg {
            assert(span.drop_first() =~= dspan);
        } else {
            assert(span =~= dspan);
        }
        assert(forall|p: int| 0 <= p < dspan.len() ==> is_digit(#[trigger] dspan[p]));
        assert(int_span_val(span) == if neg {
            -digits_val(dspan)
        } else {
            digits_val(dspan)
        });
    }
    let mut mag: u128 = 0;
    let mut j: usize = start;
    while j < end
        invariant
            start <= j <= end,
            mag == digits_val(s.subrange(start as int, j as int)),
            mag <= isize::MAX as u128 + 1,
        decreases end - j,
    {
        proof {
            assert(dspan.take(j - start) =~= s.subrange(start as int, j as int));
            assert(dspan.take(j + 1 - start) =~= s.subrange(start as int, j as int + 1));
            lemma_digits_val_step(dspan, j - start);
            lemma_digits_val_prefix(dspan, j - start);
            lemma_digits_val_nonneg(dspan);
        }
        let d = source[j] - 48;
        let next = mag * 10 + d as u128;
        if next > isize::MAX as u128 + 1 {
            // The span's value can only grow with further digits, so it is
            // already out of range for either sign.
            proof {
                assert(dspan[j - start] == s[j as int]);
                assert(digits_val(dspan.take(j + 1 - start)) == next as int);
                lemma_digits_val_prefix(dspan, j + 1 - start);
                assert(digits_val(dspan) > isize::MAX + 1);
            }
            return Err(DecodeError::ParseInt);
        }
        mag = next;
        j = j + 1;
    }
    proof {
        assert(s.subrange(start as int, end as int) == dspan);
        lemma_digits_val_nonneg(dspan);
    }
    if neg {
        if mag == isize::MAX as u128 + 1 {
            Ok(isize::MIN)
        } else {
            Ok(-(mag as isize))
        }
    } else {
        if mag > isize::MAX as u128 {
            Err(DecodeError::ParseInt)
        } else {
            Ok(mag as isize)
        }
    }
}

/// Converts a byte string's length span `source[..end]` to a `usize`,
/// rejecting empty spans and values that do not fit.
#[verifier::loop_isolation(false)]
fn parse_len_span(source: &[u8], end: usize) -> (r: Result<usize, DecodeError>)
    requires
        end <= source@.len(),
        forall|j: int| 0 <= j < end ==> is_digit(#[trigger] source@[j]),
    ensures
        match r {
            Ok(value) => source@.take(end as int).len() > 0 && value == digits_val(
                source@.take(end as int),
            ),
            Err(e) => e == DecodeError::ParseInt && (end == 0 || digits_val(
                source@.take(end as int),
            ) > usize::MAX),
        },
{
    let ghost s = source@;
    let ghost span = s.take(end as int);
    if end == 0 {
        return Err(DecodeError::ParseInt);
    }
    proof {
        assert(forall|p: int| 0 <= p < span.len() ==> is_digit(#[trigger] span[p]));
    }
    let mut value: u128 = 0;
    let mut j: usize = 0;
    while j < end
        invariant
            j <= end,
            value == digits_val(s.take(j as int)),
            value <= usize::MAX as u128,
        decreases end - j,
    {
        proof {
            assert(span.take(j as int) =~= s.take(j as int));
            assert(span.take(j + 1 as int) =~= s.take(j as int + 1));
            lemma_digits_val_step(span, j as int);
            lemma_digits_val_prefix(span, j as int);
            lemma_digits_val_nonneg(span);
        }
        let d = source[j] - 48;
        let next = value * 10 + d as u128;
        if next > usize::MAX as u128 {
            // Further digits only grow the value, so it cannot fit.
            proof {
                assert(digits_val(s.take(j as int + 1)) == next as int);
                assert(span.take(j + 1 as int) =~= s.take(j as int + 1));
                lemma_digits_val_prefix(span, j as int + 1);
                assert(digits_val(span) > usize::MAX);
            }
            return Err(DecodeError::ParseInt);
        }
        value = next;
        j = j + 1;
    }
    Ok(value as usize)
}

/// Decodes an integer body, the bytes after the leading `i`.
fn decode_integer(source: &[u8]) -> (r: Result<(Value, usize), DecodeError>)
    ensures
        result_matches(r, spec_decode_integer(source@)),
{
    match scan_int_end(source) {
        Err(e) => Err(e),
        Ok(epos) => {
            let total = source.len();
            proof {
                lemma_int_scan_shape(source@, 0);
                assert(epos < total);
            }
            match parse_int_span(source, epos) {
                Err(e) => Err(e),
                Ok(value) => Ok((Value::Integer(value), epos + 1)),
            }
        },
    }
}

/// Decodes a byte string: a decimal length, `:`, then that many raw bytes,
/// copied out of the buffer.
fn decode_byte_string(source: &[u8]) -> (r: Result<(Value, usize), DecodeError>)
    ensures
        result_matches(r, spec_decode_byte_string(source@)),
{
    match scan_len_end(source) {
        Err(e) => Err(e),
        Ok(colon) => {
            let total = source.len();
            proof {
                lemma_len_scan_shape(source@, 0);
                assert(colon < total);
            }
            match parse_len_span(source, colon) {
                Err(e) => Err(e),
                Ok(length) => {
                    let start = colon + 1;
                    if length > source.len() - start {
                        Err(DecodeError::InvalidByteStringLength((length, colon)))
                    } else {
                        let payload = vstd::slice::slice_to_vec(
                            vstd::slice::slice_subrange(source, start, start + length),
                        );
                        Ok((Value::ByteString(payload), start + length))
                    }
                },
            }
        },
    }
}


/// The outcome of comparing two keys.
pub enum KeyOrder {
    Less,
    Equal,
    Greater,
}

/// Compares two keys in byte-lexicographic order.
fn lex_compare(a: &Vec<u8>, b: &Vec<u8>) -> (r: KeyOrder)
    ensures
        r is Less ==> lex_lt(a@, b@),
        r is Equal ==> a@ == b@,
        r is Greater ==> lex_lt(b@, a@),
{
    let mut i: usize = 0;
    loop
        invariant
            i <= a@.len(),
            i <= b@.len(),
            forall|j: int| 0 <= j < i ==> a@[j] == b@[j],
        decreases a@.len() - i,
    {
        if i >= a.len() || i >= b.len() {
            proof {
                lemma_lex_skip(a@, b@, i as int);
                lemma_lex_skip(b@, a@, i as int);
            }
            if a.len() < b.len() {
                return KeyOrder::Less;
            } else if b.len() < a.len() {
                return KeyOrder::Greater;
            } else {
                proof {
                    assert(a@ =~= b@);
                }
                return KeyOrder::Equal;
            }
        }
        let x = a[i];
        let y = b[i];
        if x < y {
            proof {
                lemma_lex_skip(a@, b@, i as int);
                assert(a@.skip(i as int)[0] == x);
                assert(b@.skip(i as int)[0] == y);
            }
            return KeyOrder::Less;
        } else if y < x {
            proof {
                lemma_lex_skip(b@, a@, i as int);
                assert(a@.skip(i as int)[0] == x);
                assert(b@.skip(i as int)[0] == y);
            }
            return KeyOrder::Greater;
        } else {
            i = i + 1;
        }
    }
}

/// Where the key lands: inserting at the first position whose key is not
/// below `k` is what `dict_insert` does.
pub proof fn lemma_dict_insert_at(d: Seq<(Seq<u8>, SpecValue)>, k: Seq<u8>, v: SpecValue, i: int)
    requires
        0 <= i <= d.len(),
        forall|j: int| 0 <= j < i ==> lex_lt((#[trigger] d[j]).0, k),
        i < d.len() ==> !lex_lt(d[i].0, k),
    ensures
        i < d.len() && d[i].0 == k ==> dict_insert(d, k, v) == d.take(i) + seq![(k, v)] + d.skip(
            i + 1,
        ),
        !(i < d.len() && d[i].0 == k) ==> dict_insert(d, k, v) == d.take(i) + seq![(k, v)]
            + d.skip(i),
    decreases i,
{
    if i == 0 {
        if d.len() == 0 {
            assert(dict_insert(d, k, v) =~= d.take(0) + seq![(k, v)] + d.skip(0));
        } else {
            lemma_lex_total(k, d[0].0);
            if d[0].0 == k {
                assert(seq![(k, v)] + d.drop_first() =~= d.take(0) + seq![(k, v)] + d.skip(1));
            } else {
                assert(lex_lt(k, d[0].0));
                assert(seq![(k, v)] + d =~= d.take(0) + seq![(k, v)] + d.skip(0));
            }
        }
    } else {
        lemma_lex_strict(d[0].0, k);
        let d1 = d.drop_first();
        assert(forall|j: int| 0 <= j < i - 1 ==> lex_lt((#[trigger] d1[j]).0, k)) by {
            assert(forall|j: int| 0 <= j < d1.len() ==> (#[trigger] d1[j]) == d[j + 1]);
        }
        assert(i - 1 < d1.len() ==> d1[i - 1] == d[i]);
        lemma_dict_insert_at(d1, k, v, i - 1);
        assert(dict_insert(d, k, v) == seq![d[0]] + dict_insert(d1, k, v));
        if i < d.len() && d[i].0 == k {
            assert(seq![d[0]] + (d1.take(i - 1) + seq![(k, v)] + d1.skip(i)) =~= d.take(i) + seq![
                (k, v),
            ] + d.skip(i + 1));
        } else {
            assert(seq![d[0]] + (d1.take(i - 1) + seq![(k, v)] + d1.skip(i - 1)) =~= d.take(i)
                + seq![(k, v)] + d.skip(i));
        }
    }
}

/// Inserts a decoded (key, value) pair into the entry vector, keeping keys
/// in strictly ascending order; an equal key replaces the stored value.
#[verifier::loop_isolation(false)]
fn dict_insert_entry(entries: &mut Vec<(Vec<u8>, Value)>, key: Vec<u8>, value: Value)
    ensures
        deep_entries(final(entries)@) == dict_insert(
            deep_entries(old(entries)@),
            key@,
            value.deep(),
        ),
{
    let ghost d0 = deep_entries(old(entries)@);
    let mut i: usize = 0;
    loop
        invariant
            i <= entries@.len(),
            entries@ == old(entries)@,
            forall|j: int| 0 <= j < i ==> lex_lt((#[trigger] d0[j]).0, key@),
        decreases entries@.len() - i,
    {
        if i >= entries.len() {
            proof {
                lemma_dict_insert_at(d0, key@, value.deep(), i as int);
            }
            entries.push((key, value));
            proof {
                assert(deep_entries(entries@) =~= d0.take(d0.len() as int) + seq![
                    (key@, value.deep()),
                ] + d0.skip(d0.len() as int));
            }
            return;
        }
        let cmp = lex_compare(&entries[i].0, &key);
        proof {
            assert(d0[i as int].0 == entries@[i as int].0@);
        }
        match cmp {
            KeyOrder::Less => {
                i = i + 1;
            },
            KeyOrder::Equal => {
                proof {
                    lemma_lex_strict(d0[i as int].0, key@);
                    lemma_dict_insert_at(d0, key@, value.deep(), i as int);
                }
                entries.remove(i);
                entries.insert(i, (key, value));
                proof {
                    assert(deep_entries(entries@) =~= d0.take(i as int) + seq![
                        (key@, value.deep()),
                    ] + d0.skip(i as int + 1));
                }
                return;
            },
            KeyOrder::Greater => {
                proof {
                    lemma_lex_strict(d0[i as int].0, key@);
                    lemma_dict_insert_at(d0, key@, value.deep(), i as int);
                }
                entries.insert(i, (key, value));
                proof {
                    assert(deep_entries(entries@) =~= d0.take(i as int) + seq![
                        (key@, value.deep()),
                    ] + d0.skip(i as int));
                }
                return;
            },
        }
    }
}

/// Decodes a list body, the bytes after the leading `l`: elements up to the
/// terminating `e`.
#[verifier::loop_isolation(false)]
fn decode_list(source: &[u8]) -> (r: Result<(Value, usize), DecodeError>)
    ensures
        result_matches(r, spec_decode_list(source@, Seq::empty())),
    decreases source@.len(), 1int,
{
    let ghost s = source@;
    let mut index: usize = 0;
    let mut values: Vec<Value> = Vec::new();
    proof {
        assert(s.skip(0) =~= s);
        assert(deep_seq(values@) =~= Seq::<SpecValue>::empty());
    }
    loop
        invariant
            index <= s.len(),
            spec_decode_list(s, Seq::empty()) == shift_consumed(
                spec_decode_list(s.skip(index as int), deep_seq(values@)),
                index as int,
            ),
        decreases s.len() - index,
    {
        let ghost rem = s.skip(index as int);
        if index >= source.len() {
            return Err(DecodeError::UnexpectedEndOfFile);
        }
        let b = source[index];
        if b == 101 {
            proof {
                assert(rem[0] == 101);
                lemma_deep_list(values);
            }
            return Ok((Value::List(values), index + 1));
        }
        let sub = vstd::slice::slice_subrange(source, index, source.len());
        proof {
            assert(sub@ =~= rem);
            assert(rem[0] == b);
        }
        match decode_bytes(sub) {
            Err(e) => {
                return Err(e);
            },
            Ok((v, n)) => {
                proof {
                    lemma_decode_bytes_props(rem);
                    assert(rem.skip(n as int) =~= s.skip(index as int + n as int));
                    lemma_deep_seq_push(values@, v);
                }
                values.push(v);
                index = index + n;
            },
        }
    }
}

/// Decodes a dictionary body, the bytes after the leading `d`: byte-string
/// keys, each followed by a value, up to the terminating `e`. Entries land
/// in key-sorted position whatever order they arrive in; a repeated key
/// replaces the earlier value.
#[verifier::loop_isolation(false)]
fn decode_dictionary(source: &[u8]) -> (r: Result<(Value, usize), DecodeError>)
    ensures
        result_matches(r, spec_decode_dict(source@, Seq::empty())),
    decreases source@.len(), 1int,
{
    let ghost s = source@;
    let mut index: usize = 0;
    let mut entries: Vec<(Vec<u8>, Value)> = Vec::new();
    proof {
        assert(s.skip(0) =~= s);
        assert(deep_entries(entries@) =~= Seq::<(Seq<u8>, SpecValue)>::empty());
    }
    loop
        invariant
            index <= s.len(),
            spec_decode_dict(s, Seq::empty()) == shift_consumed(
                spec_decode_dict(s.skip(index as int), deep_entries(entries@)),
                index as int,
            ),
        decreases s.len() - index,
    {
        let ghost rem = s.skip(index as int);
        if index >= source.len() {
            return Err(DecodeError::UnexpectedEndOfFile);
        }
        let b = source[index];
        if b == 101 {
            proof {
                assert(rem[0] == 101);
                lemma_deep_dictionary(entries);
            }
            return Ok((Value::Dictionary(entries), index + 1));
        }
        let sub = vstd::slice::slice_subrange(source, index, source.len());
        proof {
            assert(sub@ =~= rem);
            assert(rem[0] == b);
        }
        match decode_byte_string(sub) {
            Err(e) => {
                return Err(e);
            },
            Ok((kval, n1)) => {
                proof {
                    lemma_decode_byte_string_props(rem);
                }
                let key = match kval {
                    Value::ByteString(bytes) => bytes,
                    _ => {
                        proof {
                            assert(false);
                        }
                        return Err(DecodeError::UnexpectedEndOfFile);
                    },
                };
                let sub2 = vstd::slice::slice_subrange(source, index + n1, source.len());
                proof {
                    assert(sub2@ =~= rem.skip(n1 as int));
                }
                match decode_bytes(sub2) {
                    Err(e) => {
                        return Err(e);
                    },
                    Ok((v, n2)) => {
                        proof {
                            lemma_decode_bytes_props(sub2@);
                            assert(rem.skip(n1 as int + n2 as int) =~= s.skip(
                                index as int + n1 as int + n2 as int,
                            ));
                        }
                        dict_insert_entry(&mut entries, key, v);
                        index = index + n1 + n2;
                    },
                }
            },
        }
    }
}

/// Decodes one bencode value from the start of the buffer, dispatching on
/// the first byte, and reports how many bytes the value occupied.
pub fn decode_bytes(source: &[u8]) -> (r: Result<(Value, usize), DecodeError>)
    ensures
        result_matches(r, spec_decode_bytes(source@)),
    decreases source@.len(), 0int,
{
    if source.len() == 0 {
        return Err(DecodeError::UnexpectedEndOfFile);
    }
    let b = source[0];
    if b == 105 {
        let rest = vstd::slice::slice_subrange(source, 1, source.len());
        proof {
            assert(rest@ =~= source@.drop_first());
        }
        match decode_integer(rest) {
            Ok((v, n)) => {
                proof {
                    lemma_decode_integer_props(rest@);
                }
                Ok((v, n + 1))
            },
            Err(e) => Err(e),
        }
    } else if 48 <= b && b <= 57 {
        decode_byte_string(source)
    } else if b == 108 {
        let rest = vstd::slice::slice_subrange(source, 1, source.len());
        proof {
            assert(rest@ =~= source@.drop_first());
        }
        match decode_list(rest) {
            Ok((v, n)) => {
                proof {
                    lemma_decode_list_props(rest@, Seq::empty());
                }
                Ok((v, n + 1))
            },
            Err(e) => Err(e),
        }
    } else if b == 100 {
        let rest = vstd::slice::slice_subrange(source, 1, source.len());
        proof {
            assert(rest@ =~= source@.drop_first());
        }
        match decode_dictionary(rest) {
            Ok((v, n)) => {
                proof {
                    assert(wf(SpecValue::Dict(Seq::empty())));
                    lemma_decode_dict_props(rest@, Seq::empty());
                }
                Ok((v, n + 1))
            },
            Err(e) => Err(e),
        }
    } else {
        Err(DecodeError::UnexpectedByte((b, 0)))
    }
}

/// Decodes a whole buffer into the single bencode value that starts at
/// offset 0. The decoded value is well-formed: its dictionaries are
/// strictly key-sorted, so re-encoding it is canonical.
pub fn decode(source: &[u8]) -> (r: Result<Value, DecodeError>)
    ensures
        match r {
            Ok(v) => spec_decode(source@) == Ok::<SpecValue, DecodeError>(v.deep()) && wf(v.deep()),
            Err(e) => spec_decode(source@) == Err::<SpecValue, DecodeError>(e),
        },
{
    match decode_bytes(source) {
        Ok((value, _)) => {
            proof {
                lemma_decode_bytes_props(source@);
            }
            Ok(value)
        },
        Err(e) => Err(e),
    }
}

} // verus!
