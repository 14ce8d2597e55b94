//! The laws of the codec, each stated over the spec-level model and proved
//! once and for all: encoding and decoding are exact inverses, array
//! consumption is additive, and malformed input draws the right typed
//! error.

use vstd::prelude::*;
use crate::parse::{
    all_digits, crlf_at, digits_val, first_crlf, int_digits, int_negative, int_val,
    lemma_first_crlf, lemma_first_crlf_at, spec_decode, spec_decode_elems, spec_parse_int,
    valid_int, RespError, MAX_DEPTH,
};
use crate::value::{
    crlf, dec_bytes, depth, depth_elems, encoding, encoding_elems, lemma_dec_bytes_range,
    lemma_depth_elems, lemma_wf_elems, no_crlf_bytes, text_bytes, wf, wf_elems, ValueModel,
    ARRAY_PREFIX, BULK_PREFIX, CR, LF, SIMPLE_PREFIX,
};

verus! {

/// In a sequence made of delimiter-free bytes, the delimiter, and a tail,
/// the first delimiter pair is exactly the appended one.
proof fn lemma_first_crlf_exact(a: Seq<u8>, b: Seq<u8>)
    requires
        no_crlf_bytes(a),
    ensures
        first_crlf(a + crlf() + b) == Some(a.len() as int),
{
    let s = a + crlf() + b;
    assert(s[a.len() as int] == CR);
    assert(s[a.len() as int + 1] == LF);
    assert(crlf_at(s, a.len() as int));
    assert forall|j: int| 0 <= j < a.len() implies !crlf_at(s, j) by {
        if j + 1 < a.len() {
            assert(s[j] == a[j]);
            assert(s[j + 1] == a[j + 1]);
            assert(!crlf_at(a, j));
        } else {
            assert(s[j + 1] == CR);
        }
    }
    lemma_first_crlf_at(s, a.len() as int);
}

/// The decimal digit bytes of a number: at least one, all digits, and
/// delimiter-free.
proof fn lemma_dec_bytes_digits(n: nat)
    ensures
        dec_bytes(n).len() >= 1,
        all_digits(dec_bytes(n)),
        no_crlf_bytes(dec_bytes(n)),
{
    lemma_dec_bytes_range(n);
}

/// The digit bytes of a number denote that number.
proof fn lemma_dec_bytes_val(n: nat)
    ensures
        digits_val(dec_bytes(n)) == n,
    decreases n,
{
    if n < 10 {
        assert(dec_bytes(n) == seq![(48 + n) as u8]);
        assert(dec_bytes(n).drop_last() =~= Seq::<u8>::empty());
        assert((48 + n) as u8 == 48 + n);
        assert(digits_val(Seq::<u8>::empty()) == 0);
        assert(digits_val(dec_bytes(n)) == n);
    } else {
        lemma_dec_bytes_val(n / 10);
        let d = dec_bytes(n);
        assert(d == dec_bytes(n / 10).push((48 + n % 10) as u8));
        assert(d.drop_last() =~= dec_bytes(n / 10));
        vstd::arithmetic::div_mod::lemma_mod_division_less_than_divisor(n as int, 10);
        assert(0 <= n % 10 < 10);
        assert(d.last() == (48 + n % 10) as u8);
        assert(48 + n % 10 < 128);
        assert(d.last() - 48 == n % 10);
        assert(digits_val(d) == digits_val(dec_bytes(n / 10)) * 10 + (n % 10));
        vstd::arithmetic::div_mod::lemma_fundamental_div_mod(n as int, 10);
        assert((n / 10) as int == n as int / 10);
        assert((n % 10) as int == n as int % 10);
        assert(n == 10 * (n as int / 10) + (n as int % 10));
        assert(digits_val(d) == n);
    }
}

/// Parsing the digit bytes of an in-range number yields the number.
proof fn lemma_parse_dec_bytes(n: nat)
    requires
        n <= i64::MAX,
    ensures
        spec_parse_int(dec_bytes(n)) == Ok::<i64, RespError>(n as i64),
{
    lemma_dec_bytes_digits(n);
    lemma_dec_bytes_val(n);
    let d = dec_bytes(n);
    assert(crate::parse::is_digit(d[0]));
    assert(int_digits(d) == d);
    assert(!int_negative(d));
    assert(valid_int(d));
    assert(int_val(d) == n as int);
}

/// Decoding the encoding of a representable value, whatever follows it in
/// the buffer, yields exactly that value and consumes exactly the
/// encoding.
pub proof fn lemma_decode_encoding(m: ValueModel, extra: Seq<u8>, d: nat)
    requires
        wf(m),
        depth(m) <= d,
    ensures
        spec_decode(encoding(m) + extra, d) == Ok::<(ValueModel, int), RespError>(
            (m, encoding(m).len() as int),
        ),
    decreases d, 1nat, 0nat,
{
    let s0 = encoding(m) + extra;
    match m {
        ValueModel::SimpleString(t) => {
            let body = text_bytes(t);
            assert(s0[0] == SIMPLE_PREFIX);
            assert(s0.skip(1) =~= body + crlf() + extra);
            vstd::utf8::encode_utf8_valid_utf8(t);
            vstd::utf8::encode_utf8_decode_utf8(t);
            lemma_first_crlf_exact(body, extra);
            assert(s0.subrange(1, 1 + body.len() as int) =~= body);
            assert(encoding(m).len() == body.len() + 3);
        },
        ValueModel::BulkString(t) => {
            let body = text_bytes(t);
            let dec = dec_bytes(body.len());
            assert(s0[0] == BULK_PREFIX);
            lemma_dec_bytes_digits(body.len());
            lemma_parse_dec_bytes(body.len());
            vstd::utf8::encode_utf8_valid_utf8(t);
            vstd::utf8::encode_utf8_decode_utf8(t);
            assert(s0.skip(1) =~= dec + crlf() + (body + crlf() + extra));
            lemma_first_crlf_exact(dec, body + crlf() + extra);
            assert(s0.subrange(1, 1 + dec.len() as int) =~= dec);
            let h = dec.len() + 3;
            let n = body.len() as int;
            assert(crate::parse::spec_header(s0) == Ok::<(i64, int), RespError>(
                (body.len() as i64, h as int),
            ));
            assert(h + n + 2 <= s0.len());
            assert(s0[h + n] == CR);
            assert(s0[h + n + 1] == LF);
            assert(s0.subrange(h as int, h + n) =~= body);
            assert(encoding(m).len() == h + n + 2);
        },
        ValueModel::Array(ms) => {
            let dec = dec_bytes(ms.len());
            assert(s0[0] == ARRAY_PREFIX);
            lemma_dec_bytes_digits(ms.len());
            lemma_parse_dec_bytes(ms.len());
            assert(s0.skip(1) =~= dec + crlf() + (encoding_elems(ms) + extra));
            lemma_first_crlf_exact(dec, encoding_elems(ms) + extra);
            assert(s0.subrange(1, 1 + dec.len() as int) =~= dec);
            let h = dec.len() + 3;
            assert(crate::parse::spec_header(s0) == Ok::<(i64, int), RespError>(
                (ms.len() as i64, h as int),
            ));
            assert(s0.skip(h as int) =~= encoding_elems(ms) + extra);
            lemma_wf_elems(ms);
            lemma_depth_elems(ms);
            lemma_decode_encoding_elems(ms, extra, (d - 1) as nat);
            assert(encoding(m).len() == h + encoding_elems(ms).len());
        },
    }
}

/// Splitting off an array's first element splits its encoding.
proof fn lemma_encoding_elems_first(ms: Seq<ValueModel>)
    requires
        ms.len() > 0,
    ensures
        encoding_elems(ms) == encoding(ms[0]) + encoding_elems(ms.drop_first()),
    decreases ms.len(),
{
    let dl = ms.drop_last();
    if ms.len() == 1 {
        assert(dl =~= Seq::<ValueModel>::empty());
        assert(ms.drop_first() =~= Seq::<ValueModel>::empty());
        assert(encoding_elems(ms) == encoding_elems(dl) + encoding(ms.last()));
        assert(Seq::<u8>::empty() + encoding(ms[0]) =~= encoding(ms[0]) + Seq::<u8>::empty());
    } else {
        lemma_encoding_elems_first(dl);
        assert(dl[0] == ms[0]);
        assert(ms.drop_first().drop_last() =~= dl.drop_first());
        assert(ms.drop_first().last() == ms.last());
        assert(encoding_elems(ms.drop_first()) == encoding_elems(dl.drop_first()) + encoding(
            ms.last(),
        ));
        assert((encoding(ms[0]) + encoding_elems(dl.drop_first())) + encoding(ms.last())
            =~= encoding(ms[0]) + (encoding_elems(dl.drop_first()) + encoding(ms.last())));
    }
}

/// Companion of `lemma_decode_encoding` for the elements of an array:
/// decoding them in order consumes exactly their concatenated encodings.
pub proof fn lemma_decode_encoding_elems(ms: Seq<ValueModel>, extra: Seq<u8>, d: nat)
    requires
        forall|i: int| 0 <= i < ms.len() ==> wf(#[trigger] ms[i]),
        forall|i: int| 0 <= i < ms.len() ==> depth(#[trigger] ms[i]) <= d,
    ensures
        spec_decode_elems(encoding_elems(ms) + extra, ms.len(), d) == Ok::<
            (Seq<ValueModel>, int),
            RespError,
        >((ms, encoding_elems(ms).len() as int)),
    decreases d, 2nat, ms.len(),
{
    let s1 = encoding_elems(ms) + extra;
    if ms.len() == 0 {
        assert(ms =~= Seq::<ValueModel>::empty());
    } else {
        lemma_encoding_elems_first(ms);
        let head = encoding(ms[0]);
        let rest = encoding_elems(ms.drop_first());
        assert(s1 =~= head + (rest + extra));
        lemma_decode_encoding(ms[0], rest + extra, d);
        assert(spec_decode(s1, d) == Ok::<(ValueModel, int), RespError>(
            (ms[0], head.len() as int),
        ));
        assert(s1.skip(head.len() as int) =~= rest + extra);
        assert forall|i: int| 0 <= i < ms.drop_first().len() implies wf(
            #[trigger] ms.drop_first()[i],
        ) && depth(ms.drop_first()[i]) <= d by {
            assert(ms.drop_first()[i] == ms[i + 1]);
        }
        lemma_decode_encoding_elems(ms.drop_first(), extra, d);
        assert((ms.len() - 1) as nat == ms.drop_first().len());
        assert(seq![ms[0]] + ms.drop_first() =~= ms);
    }
}

/// Round-trip: decoding the encoding of any representable value — well
/// formed and within the nesting limit — yields exactly that value, and
/// the consumed count is exactly the encoding's length.
pub proof fn lemma_round_trip(m: ValueModel)
    requires
        wf(m),
        depth(m) <= MAX_DEPTH,
    ensures
        spec_decode(encoding(m), MAX_DEPTH as nat) == Ok::<(ValueModel, int), RespError>(
            (m, encoding(m).len() as int),
        ),
{
    assert(encoding(m) + Seq::<u8>::empty() =~= encoding(m));
    lemma_decode_encoding(m, Seq::empty(), MAX_DEPTH as nat);
}

/// The total length of the elements' concatenated encodings, element by
/// element.
pub open spec fn sum_elem_lens(ms: Seq<ValueModel>) -> int
    decreases ms,
{
    if ms.len() == 0 {
        0
    } else {
        sum_elem_lens(ms.drop_last()) + encoding(ms.last()).len()
    }
}

/// The concatenated encodings of an array's elements are as long as the
/// sum of the elements' encodings.
proof fn lemma_encoding_elems_len(ms: Seq<ValueModel>)
    ensures
        encoding_elems(ms).len() == sum_elem_lens(ms),
    decreases ms,
{
    if ms.len() > 0 {
        lemma_encoding_elems_len(ms.drop_last());
    }
}

/// Array consumption additivity: decoding an array consumes exactly its
/// header's length plus the sum of the bytes each element's own decode
/// consumes, at every nesting depth within the limit.
pub proof fn lemma_array_additivity(ms: Seq<ValueModel>)
    requires
        wf(ValueModel::Array(ms)),
        depth(ValueModel::Array(ms)) <= MAX_DEPTH,
    ensures
        spec_decode(encoding(ValueModel::Array(ms)), MAX_DEPTH as nat) == Ok::<
            (ValueModel, int),
            RespError,
        >((ValueModel::Array(ms), (1 + dec_bytes(ms.len()).len() + 2) + sum_elem_lens(ms))),
        forall|i: int| 0 <= i < ms.len() ==> spec_decode(
            encoding(#[trigger] ms[i]),
            (MAX_DEPTH - 1) as nat,
        ) == Ok::<(ValueModel, int), RespError>((ms[i], encoding(ms[i]).len() as int)),
{
    lemma_round_trip(ValueModel::Array(ms));
    lemma_encoding_elems_len(ms);
    assert(encoding(ValueModel::Array(ms)).len() == (1 + dec_bytes(ms.len()).len() + 2)
        + encoding_elems(ms).len());
    lemma_wf_elems(ms);
    lemma_depth_elems(ms);
    assert forall|i: int| 0 <= i < ms.len() implies spec_decode(
        encoding(#[trigger] ms[i]),
        (MAX_DEPTH - 1) as nat,
    ) == Ok::<(ValueModel, int), RespError>((ms[i], encoding(ms[i]).len() as int)) by {
        assert(encoding(ms[i]) + Seq::<u8>::empty() =~= encoding(ms[i]));
        lemma_decode_encoding(ms[i], Seq::empty(), (MAX_DEPTH - 1) as nat);
    }
}

/// Malformed-input safety, missing delimiter: a buffer that opens with a
/// recognized prefix but holds no delimiter pair anywhere decodes to the
/// `MalformedHeader` error, never a value.
pub proof fn lemma_missing_delimiter(s: Seq<u8>, d: nat)
    requires
        d >= 1,
        s.len() >= 1,
        s[0] == SIMPLE_PREFIX || s[0] == BULK_PREFIX || s[0] == ARRAY_PREFIX,
        no_crlf_bytes(s),
    ensures
        spec_decode(s, d) == Err::<(ValueModel, int), RespError>(RespError::MalformedHeader),
{
    let t = s.skip(1);
    lemma_first_crlf(t);
    if let Some(i) = first_crlf(t) {
        assert(crlf_at(t, i));
        assert(s[i + 1] == t[i]);
        assert(s[i + 2] == t[i + 1]);
        assert(crlf_at(s, i + 1));
        assert(false);
    }
}

/// Malformed-input safety, truncated frame: a bulk-string frame that
/// declares more payload bytes than the buffer holds decodes to the
/// `TruncatedFrame` error, never a value and never an out-of-bounds read.
pub proof fn lemma_truncated_bulk(n: nat, rest: Seq<u8>, d: nat)
    requires
        d >= 1,
        n <= i64::MAX,
        rest.len() < n + 2,
    ensures
        spec_decode(seq![BULK_PREFIX] + dec_bytes(n) + crlf() + rest, d) == Err::<
            (ValueModel, int),
            RespError,
        >(RespError::TruncatedFrame),
{
    let s = seq![BULK_PREFIX] + dec_bytes(n) + crlf() + rest;
    let dec = dec_bytes(n);
    lemma_dec_bytes_digits(n);
    lemma_parse_dec_bytes(n);
    assert(s[0] == BULK_PREFIX);
    assert(s.skip(1) =~= dec + crlf() + rest);
    lemma_first_crlf_exact(dec, rest);
    assert(s.subrange(1, 1 + dec.len() as int) =~= dec);
    let h = dec.len() + 3;
    assert(crate::parse::spec_header(s) == Ok::<(i64, int), RespError>((n as i64, h as int)));
    assert(h + n + 2 > s.len());
}


} // verus!

