use vstd::prelude::*;

use crate::decode::{
    digits_val, dict_insert, int_scan, int_span_ok, int_span_val, is_digit, len_scan, spec_decode,
    spec_decode_byte_string, spec_decode_bytes, spec_decode_dict, spec_decode_integer,
    spec_decode_list, DecodeError,
};
use crate::torrent::{key_info, key_pieces, spec_dict_get, spec_project, spec_project_info};
use crate::value::{
    dec_digits, enc, enc_entries, enc_seq, int_digits, lemma_lex_strict, lex_lt, wf, SpecValue,
};

verus! {

/// Decimal digits are digits, and there is at least one of them.
pub proof fn lemma_dec_digits_shape(n: int)
    requires
        n >= 0,
    ensures
        dec_digits(n).len() >= 1,
        forall|i: int| 0 <= i < dec_digits(n).len() ==> is_digit(#[trigger] dec_digits(n)[i]),
    decreases n,
{
    if n >= 10 {
        lemma_dec_digits_shape(n / 10);
    }
}

/// Rendering a number as digits and reading the digits back is the
/// identity.
pub proof fn lemma_dec_digits_val(n: int)
    requires
        n >= 0,
    ensures
        digits_val(dec_digits(n)) == n,
    decreases n,
{
    if n < 10 {
        assert(digits_val(Seq::<u8>::empty()) == 0);
        assert(dec_digits(n).drop_last() =~= Seq::<u8>::empty());
        assert(dec_digits(n).last() == (48 + n) as u8);
        assert(((48 + n) as u8) - 48 == n);
    } else {
        lemma_dec_digits_val(n / 10);
        assert(dec_digits(n).drop_last() =~= dec_digits(n / 10));
        assert(dec_digits(n).last() == (48 + n % 10) as u8);
        assert(((48 + n % 10) as u8) - 48 == n % 10);
        assert(n == 10 * (n / 10) + n % 10);
    }
}

/// The integer scan runs over a span of sign and digits up to the `e`.
proof fn lemma_int_scan_from(s: Seq<u8>, epos: int, i: int)
    requires
        0 <= i <= epos < s.len(),
        s[epos] == 101,
        forall|j: int| 0 <= j < epos ==> ((s[j] == 45 && j == 0) || is_digit(#[trigger] s[j])),
    ensures
        int_scan(s, i) == Ok::<int, DecodeError>(epos),
    decreases epos - i,
{
    if i < epos {
        lemma_int_scan_from(s, epos, i + 1);
    }
}

/// The length scan runs over the digits up to the `:`.
proof fn lemma_len_scan_from(s: Seq<u8>, colon: int, i: int)
    requires
        0 <= i <= colon < s.len(),
        s[colon] == 58,
        forall|j: int| 0 <= j < colon ==> is_digit(#[trigger] s[j]),
    ensures
        len_scan(s, i) == Ok::<int, DecodeError>(colon),
    decreases colon - i,
{
    if i < colon {
        lemma_len_scan_from(s, colon, i + 1);
    }
}

/// A correctly framed byte string at the start of the window decodes to
/// exactly its payload, whatever follows it.
pub proof fn lemma_byte_string_production(payload: Seq<u8>, rest: Seq<u8>)
    requires
        payload.len() <= usize::MAX,
    ensures
        spec_decode_byte_string(dec_digits(payload.len() as int) + seq![58u8] + payload + rest)
            == Ok::<(SpecValue, int), DecodeError>(
            (
                SpecValue::Bytes(payload),
                dec_digits(payload.len() as int).len() + 1 + payload.len() as int,
            ),
        ),
{
    let digits = dec_digits(payload.len() as int);
    let s = digits + seq![58u8] + payload + rest;
    let colon = digits.len() as int;
    lemma_dec_digits_shape(payload.len() as int);
    assert(s[colon] == 58);
    assert(forall|j: int| 0 <= j < colon ==> is_digit(#[trigger] s[j]));
    lemma_len_scan_from(s, colon, 0);
    assert(s.take(colon) =~= digits);
    lemma_dec_digits_val(payload.len() as int);
    assert(s.subrange(colon + 1, colon + 1 + payload.len()) =~= payload);
}

/// Every valid encoded integer (`i`, an optional minus sign, digits, `e`)
/// whose value fits the machine word decodes to that value, whatever
/// follows it.
pub proof fn lemma_integer_decodes(span: Seq<u8>, rest: Seq<u8>)
    requires
        span.len() > 0,
        span[0] == 45 ==> span.len() >= 2,
        forall|j: int| 0 <= j < span.len() ==> ((span[j] == 45 && j == 0) || is_digit(
            #[trigger] span[j],
        )),
        isize::MIN <= int_span_val(span) <= isize::MAX,
    ensures
        spec_decode_bytes(seq![105u8] + span + seq![101u8] + rest) == Ok::<
            (SpecValue, int),
            DecodeError,
        >((SpecValue::Int(int_span_val(span)), span.len() as int + 2)),
{
    let s = seq![105u8] + span + seq![101u8] + rest;
    let body = s.drop_first();
    assert(body =~= span + seq![101u8] + rest);
    let epos = span.len() as int;
    assert(body[epos] == 101);
    assert(forall|j: int|
        0 <= j < epos ==> ((body[j] == 45 && j == 0) || is_digit(#[trigger] body[j])));
    lemma_int_scan_from(body, epos, 0);
    assert(body.take(epos) =~= span);
    assert(int_span_ok(span));
    assert(spec_decode_integer(body) == Ok::<(SpecValue, int), DecodeError>(
        (SpecValue::Int(int_span_val(span)), epos + 1),
    ));
    assert(s[0] == 105);
}

/// Every correctly framed byte string (`<length>:<payload>`) decodes to its
/// payload, whatever follows it.
pub proof fn lemma_byte_string_decodes(payload: Seq<u8>, rest: Seq<u8>)
    requires
        payload.len() <= usize::MAX,
    ensures
        spec_decode_bytes(dec_digits(payload.len() as int) + seq![58u8] + payload + rest) == Ok::<
            (SpecValue, int),
            DecodeError,
        >(
            (
                SpecValue::Bytes(payload),
                dec_digits(payload.len() as int).len() + 1 + payload.len() as int,
            ),
        ),
{
    let digits = dec_digits(payload.len() as int);
    let s = digits + seq![58u8] + payload + rest;
    lemma_dec_digits_shape(payload.len() as int);
    lemma_byte_string_production(payload, rest);
    assert(is_digit(s[0]));
}

/// Every encoding is at least two bytes and never starts with the
/// terminator `e`, so a decoder never mistakes an element for the end of a
/// list or dictionary body.
pub proof fn lemma_enc_shape(v: SpecValue)
    ensures
        enc(v).len() >= 2,
        enc(v)[0] != 101,
{
    match v {
        SpecValue::Int(i) => {
            assert(enc(v)[0] == 105);
        },
        SpecValue::Bytes(b) => {
            lemma_dec_digits_shape(b.len() as int);
            assert(enc(v)[0] == dec_digits(b.len() as int)[0]);
        },
        SpecValue::List(l) => {
            assert(enc(v)[0] == 108);
        },
        SpecValue::Dict(d) => {
            assert(enc(v)[0] == 100);
        },
    }
}

/// Inserting a key above every stored key appends the entry at the end.
pub proof fn lemma_dict_insert_append(d: Seq<(Seq<u8>, SpecValue)>, k: Seq<u8>, v: SpecValue)
    requires
        forall|j: int| 0 <= j < d.len() ==> lex_lt((#[trigger] d[j]).0, k),
    ensures
        dict_insert(d, k, v) == d.push((k, v)),
    decreases d.len(),
{
    if d.len() == 0 {
        assert(dict_insert(d, k, v) =~= d.push((k, v)));
    } else {
        lemma_lex_strict(d[0].0, k);
        let d1 = d.drop_first();
        assert(forall|j: int| 0 <= j < d1.len() ==> (#[trigger] d1[j]) == d[j + 1]);
        lemma_dict_insert_append(d1, k, v);
        assert(seq![d[0]] + d1.push((k, v)) =~= d.push((k, v)));
    }
}

/// Decoding the canonical encoding of a well-formed value from the start of
/// a window yields the value back and consumes exactly the encoding,
/// whatever bytes follow it.
pub proof fn lemma_round_trip_at(v: SpecValue, rest: Seq<u8>)
    requires
        wf(v),
    ensures
        spec_decode_bytes(enc(v) + rest) == Ok::<(SpecValue, int), DecodeError>(
            (v, enc(v).len() as int),
        ),
    decreases v,
{
    let s = enc(v) + rest;
    match v {
        SpecValue::Int(i) => {
            let span = int_digits(i);
            if i < 0 {
                lemma_dec_digits_shape(-i);
                assert(span[0] == 45);
                assert forall|j: int|
                    0 <= j < span.len() implies ((span[j] == 45 && j == 0) || is_digit(
                    #[trigger] span[j],
                )) by {
                    if j > 0 {
                        assert(span[j] == dec_digits(-i)[j - 1]);
                    }
                }
                assert(span.drop_first() =~= dec_digits(-i));
                lemma_dec_digits_val(-i);
                assert(int_span_val(span) == i);
            } else {
                lemma_dec_digits_shape(i);
                assert(forall|j: int| 0 <= j < span.len() ==> is_digit(#[trigger] span[j]));
                lemma_dec_digits_val(i);
                assert(int_span_val(span) == i);
            }
            lemma_integer_decodes(span, rest);
            assert(seq![105u8] + span + seq![101u8] + rest =~= s);
        },
        SpecValue::Bytes(b) => {
            lemma_byte_string_decodes(b, rest);
            assert(dec_digits(b.len() as int) + seq![58u8] + b + rest =~= s);
        },
        SpecValue::List(l) => {
            assert(s[0] == 108);
            assert(SpecValue::List(l)->List_0 == l);
            assert(forall|i: int| 0 <= i < l.len() ==> wf(#[trigger] l[i]));
            lemma_round_trip_list(l, Seq::empty(), rest);
            assert(s.drop_first() =~= enc_seq(l) + seq![101u8] + rest);
            assert(Seq::<SpecValue>::empty() + l =~= l);
        },
        SpecValue::Dict(d) => {
            assert(s[0] == 100);
            assert(SpecValue::Dict(d)->Dict_0 == d);
            assert(forall|i: int|
                0 <= i < d.len() ==> (#[trigger] d[i]).0.len() <= usize::MAX && wf(d[i].1));
            assert(forall|i: int, j: int|
                0 <= i < j < d.len() ==> lex_lt((#[trigger] d[i]).0, (#[trigger] d[j]).0));
            lemma_round_trip_dict(d, Seq::empty(), rest);
            assert(s.drop_first() =~= enc_entries(d) + seq![101u8] + rest);
            assert(Seq::<(Seq<u8>, SpecValue)>::empty() + d =~= d);
        },
    }
}

/// Decoding the concatenated encodings of well-formed elements, then the
/// terminator, extends the accumulated elements with exactly those
/// elements.
pub proof fn lemma_round_trip_list(l: Seq<SpecValue>, acc: Seq<SpecValue>, rest: Seq<u8>)
    requires
        forall|i: int| 0 <= i < l.len() ==> wf(#[trigger] l[i]),
    ensures
        spec_decode_list(enc_seq(l) + seq![101u8] + rest, acc) == Ok::<
            (SpecValue, int),
            DecodeError,
        >((SpecValue::List(acc + l), enc_seq(l).len() as int + 1)),
    decreases l,
{
    let s = enc_seq(l) + seq![101u8] + rest;
    if l.len() == 0 {
        assert(s =~= seq![101u8] + rest);
        assert(s[0] == 101);
        assert(acc + l =~= acc);
    } else {
        let head = l[0];
        let tail = l.subrange(1, l.len() as int);
        let rest1 = enc_seq(tail) + seq![101u8] + rest;
        assert(s =~= enc(head) + rest1);
        lemma_enc_shape(head);
        assert(s[0] == enc(head)[0]);
        lemma_round_trip_at(head, rest1);
        let n = enc(head).len() as int;
        assert(s.skip(n) =~= rest1);
        assert(forall|i: int| 0 <= i < tail.len() ==> (#[trigger] tail[i]) == l[i + 1]);
        lemma_round_trip_list(tail, acc.push(head), rest);
        assert(acc.push(head) + tail =~= acc + l);
    }
}

/// Decoding the concatenated encodings of sorted, well-formed entries, then
/// the terminator, appends exactly those entries to the accumulated ones.
pub proof fn lemma_round_trip_dict(
    d: Seq<(Seq<u8>, SpecValue)>,
    acc: Seq<(Seq<u8>, SpecValue)>,
    rest: Seq<u8>,
)
    requires
        forall|i: int| 0 <= i < d.len() ==> (#[trigger] d[i]).0.len() <= usize::MAX && wf(d[i].1),
        forall|i: int, j: int|
            0 <= i < j < d.len() ==> lex_lt((#[trigger] d[i]).0, (#[trigger] d[j]).0),
        forall|a: int, b: int|
            0 <= a < acc.len() && 0 <= b < d.len() ==> lex_lt(
                (#[trigger] acc[a]).0,
                (#[trigger] d[b]).0,
            ),
    ensures
        spec_decode_dict(enc_entries(d) + seq![101u8] + rest, acc) == Ok::<
            (SpecValue, int),
            DecodeError,
        >((SpecValue::Dict(acc + d), enc_entries(d).len() as int + 1)),
    decreases d,
{
    let s = enc_entries(d) + seq![101u8] + rest;
    if d.len() == 0 {
        assert(s =~= seq![101u8] + rest);
        assert(s[0] == 101);
        assert(acc + d =~= acc);
    } else {
        let k = d[0].0;
        let hv = d[0].1;
        let tail = d.subrange(1, d.len() as int);
        let rest2 = enc_entries(tail) + seq![101u8] + rest;
        let rest1 = enc(hv) + rest2;
        assert(s =~= dec_digits(k.len() as int) + seq![58u8] + k + rest1);
        lemma_dec_digits_shape(k.len() as int);
        assert(s[0] == dec_digits(k.len() as int)[0]);
        lemma_byte_string_production(k, rest1);
        let n1 = dec_digits(k.len() as int).len() as int + 1 + k.len() as int;
        assert(s.skip(n1) =~= rest1);
        lemma_round_trip_at(hv, rest2);
        let n2 = enc(hv).len() as int;
        lemma_enc_shape(hv);
        assert(s.skip(n1 + n2) =~= rest2);
        assert(forall|a: int| 0 <= a < acc.len() ==> lex_lt((#[trigger] acc[a]).0, k));
        lemma_dict_insert_append(acc, k, hv);
        assert((k, hv) == d[0]);
        let acc1 = acc.push(d[0]);
        assert(forall|i: int| 0 <= i < tail.len() ==> (#[trigger] tail[i]) == d[i + 1]);
        assert(forall|a: int, b: int|
            0 <= a < acc1.len() && 0 <= b < tail.len() ==> lex_lt(
                (#[trigger] acc1[a]).0,
                (#[trigger] tail[b]).0,
            ));
        lemma_round_trip_dict(tail, acc1, rest);
        assert(acc1 + tail =~= acc + d);
    }
}

/// The round-trip law: decoding the canonical encoding of any well-formed
/// value (integers in range, dictionary keys strictly sorted, as every
/// decoded value is) yields the value itself.
pub proof fn lemma_round_trip(v: SpecValue)
    requires
        wf(v),
    ensures
        spec_decode(enc(v)) == Ok::<SpecValue, DecodeError>(v),
{
    lemma_round_trip_at(v, Seq::empty());
    assert(enc(v) + Seq::empty() =~= enc(v));
}

/// A dictionary without an `info` key never projects to torrent metadata.
pub proof fn lemma_project_requires_info(d: Seq<(Seq<u8>, SpecValue)>)
    requires
        spec_dict_get(d, key_info()) is None,
    ensures
        spec_project(SpecValue::Dict(d)) is None,
{
}

/// A `pieces` byte string whose length is not a multiple of 20 — or a
/// missing or mistyped `pieces` field — makes projection fail, whatever the
/// rest of the dictionary holds.
pub proof fn lemma_project_rejects_ragged_pieces(
    d: Seq<(Seq<u8>, SpecValue)>,
    di: Seq<(Seq<u8>, SpecValue)>,
)
    requires
        spec_dict_get(d, key_info()) == Some(SpecValue::Dict(di)),
        spec_dict_get(di, key_pieces()) matches Some(p) ==> p is Bytes && p->Bytes_0.len() % 20
            != 0,
    ensures
        spec_project(SpecValue::Dict(d)) is None,
{
    assert(spec_project_info(SpecValue::Dict(di)) is None);
}

} // verus!
