//! The decoder: a recursive-descent parser that turns a byte buffer into a
//! `(Value, bytes_consumed)` pair or a typed decode error.
//!
//! The spec functions in this module are a complete mathematical model of
//! decoding; every executable parser is proved to return exactly what the
//! corresponding spec function says, error cases included.

use vstd::prelude::*;
use crate::value::{
    elems_view, utf8_string, Value, ValueModel, ARRAY_PREFIX, BULK_PREFIX, CR, LF, SIMPLE_PREFIX,
};

verus! {

/// The largest nesting depth the decoder accepts before failing with
/// `DepthExceeded`, guarding against unbounded recursion on adversarial
/// input.
pub const MAX_DEPTH: u64 = 64;

/// A typed decode failure.
#[derive(Clone, Copy, Debug, PartialEq, Eq, Structural)]
pub enum RespError {
    /// The leading byte matches no recognized frame prefix.
    UnknownType,
    /// A required delimiter was not found in the supplied bytes.
    MalformedHeader,
    /// The declared length or count is not a valid decimal integer.
    InvalidLength,
    /// Scalar payload bytes are not valid UTF-8 text.
    InvalidEncoding,
    /// The declared length implies more bytes than the buffer holds.
    TruncatedFrame,
    /// The bytes where a frame's closing delimiter must stand hold
    /// something else: the declared length does not match the frame.
    DelimiterMismatch,
    /// The value nests deeper than the configured depth limit.
    DepthExceeded,
}

/// The delimiter pair starts at index `i` of `s`.
pub open spec fn crlf_at(s: Seq<u8>, i: int) -> bool {
    &&& 0 <= i
    &&& i + 2 <= s.len()
    &&& s[i] == CR
    &&& s[i + 1] == LF
}

/// The index of the first delimiter pair in `s`, if any.
pub open spec fn first_crlf(s: Seq<u8>) -> Option<int>
    decreases s.len(),
{
    if s.len() < 2 {
        None
    } else if s[0] == CR && s[1] == LF {
        Some(0)
    } else {
        match first_crlf(s.drop_first()) {
            None => None,
            Some(i) => Some(i + 1),
        }
    }
}

/// What `first_crlf` finds is the first delimiter pair; `None` means there
/// is none.
pub proof fn lemma_first_crlf(s: Seq<u8>)
    ensures
        match first_crlf(s) {
            Some(i) => crlf_at(s, i) && forall|j: int| 0 <= j < i ==> !crlf_at(s, j),
            None => forall|j: int| !crlf_at(s, j),
        },
    decreases s.len(),
{
    if s.len() >= 2 && !(s[0] == CR && s[1] == LF) {
        lemma_first_crlf(s.drop_first());
        let t = s.drop_first();
        assert forall|j: int| crlf_at(s, j) implies j >= 1 && crlf_at(t, j - 1) by {
            assert(t[j - 1] == s[j]);
            assert(t[j] == s[j + 1]);
        }
        match first_crlf(t) {
            Some(i) => {
                assert(t[i] == s[i + 1]);
                assert(t[i + 1] == s[i + 2]);
            },
            None => {},
        }
    }
}

/// A delimiter pair whose earlier positions hold none is the one
/// `first_crlf` finds.
pub proof fn lemma_first_crlf_at(s: Seq<u8>, p: int)
    requires
        crlf_at(s, p),
        forall|j: int| 0 <= j < p ==> !crlf_at(s, j),
    ensures
        first_crlf(s) == Some(p),
{
    lemma_first_crlf(s);
    match first_crlf(s) {
        Some(i) => {
            if i < p {
                assert(!crlf_at(s, i));
            }
            if p < i {
                assert(!crlf_at(s, p));
            }
        },
        None => {
            assert(!crlf_at(s, p));
        },
    }
}

/// The byte is an ASCII decimal digit.
pub open spec fn is_digit(b: u8) -> bool {
    48 <= b <= 57
}

/// Every byte of the sequence is an ASCII decimal digit.
pub open spec fn all_digits(s: Seq<u8>) -> bool {
    forall|i: int| 0 <= i < s.len() ==> is_digit(#[trigger] s[i])
}

/// The number that a sequence of decimal digit bytes denotes.
pub open spec fn digits_val(s: Seq<u8>) -> nat
    decreases s.len(),
{
    if s.len() == 0 {
        0
    } else {
        (digits_val(s.drop_last()) * 10 + (s.last() - 48)) as nat
    }
}

/// The digit part of a signed decimal literal: everything after an optional
/// leading `+` or `-`.
pub open spec fn int_digits(s: Seq<u8>) -> Seq<u8> {
    if s.len() > 0 && (s[0] == 43 || s[0] == 45) {
        s.drop_first()
    } else {
        s
    }
}

/// The literal carries a leading minus sign.
pub open spec fn int_negative(s: Seq<u8>) -> bool {
    s.len() > 0 && s[0] == 45
}

/// The bytes form a base-10 signed integer literal: an optional sign
/// followed by at least one digit.
pub open spec fn valid_int(s: Seq<u8>) -> bool {
    int_digits(s).len() > 0 && all_digits(int_digits(s))
}

/// The integer a valid literal denotes.
pub open spec fn int_val(s: Seq<u8>) -> int {
    if int_negative(s) {
        -(digits_val(int_digits(s)) as int)
    } else {
        digits_val(int_digits(s)) as int
    }
}

/// What parsing a declared length or count returns: the denoted integer for
/// a valid in-range literal, `InvalidLength` otherwise.
pub open spec fn spec_parse_int(s: Seq<u8>) -> Result<i64, RespError> {
    if valid_int(s) && i64::MIN <= int_val(s) <= i64::MAX {
        Ok(int_val(s) as i64)
    } else {
        Err(RespError::InvalidLength)
    }
}

/// What scanning a length-prefixed frame's header returns: the declared
/// integer and the byte length of the header (prefix byte, literal,
/// delimiter).
pub open spec fn spec_header(s: Seq<u8>) -> Result<(i64, int), RespError>
    recommends
        s.len() >= 1,
{
    match first_crlf(s.skip(1)) {
        None => Err(RespError::MalformedHeader),
        Some(i) => match spec_parse_int(s.subrange(1, 1 + i)) {
            Err(e) => Err(e),
            Ok(n) => Ok((n, i + 3)),
        },
    }
}

/// What decoding a simple-string frame returns.
pub open spec fn spec_decode_simple(s: Seq<u8>) -> Result<(ValueModel, int), RespError>
    recommends
        s.len() >= 1,
{
    match first_crlf(s.skip(1)) {
        None => Err(RespError::MalformedHeader),
        Some(i) => {
            let line = s.subrange(1, 1 + i);
            if !vstd::utf8::valid_utf8(line) {
                Err(RespError::InvalidEncoding)
            } else {
                Ok((ValueModel::SimpleString(vstd::utf8::decode_utf8(line)), i + 3))
            }
        },
    }
}

/// What decoding a bulk-string frame returns.
pub open spec fn spec_decode_bulk(s: Seq<u8>) -> Result<(ValueModel, int), RespError>
    recommends
        s.len() >= 1,
{
    match spec_header(s) {
        Err(e) => Err(e),
        Ok((n, h)) => {
            if n < 0 {
                Err(RespError::InvalidLength)
            } else if h + n + 2 > s.len() {
                Err(RespError::TruncatedFrame)
            } else if !(s[h + n] == CR && s[h + n + 1] == LF) {
                Err(RespError::DelimiterMismatch)
            } else {
                let payload = s.subrange(h, h + n);
                if !vstd::utf8::valid_utf8(payload) {
                    Err(RespError::InvalidEncoding)
                } else {
                    Ok((ValueModel::BulkString(vstd::utf8::decode_utf8(payload)), h + n + 2))
                }
            }
        },
    }
}

/// What decoding one value from the front of `s` returns, with at most `d`
/// levels of nesting available.
pub open spec fn spec_decode(s: Seq<u8>, d: nat) -> Result<(ValueModel, int), RespError>
    decreases d, 1nat, 0nat,
{
    if d == 0 {
        Err(RespError::DepthExceeded)
    } else if s.len() == 0 {
        Err(RespError::MalformedHeader)
    } else if s[0] == SIMPLE_PREFIX {
        spec_decode_simple(s)
    } else if s[0] == BULK_PREFIX {
        spec_decode_bulk(s)
    } else if s[0] == ARRAY_PREFIX {
        spec_decode_array(s, d)
    } else {
        Err(RespError::UnknownType)
    }
}

/// What decoding an array frame returns: the declared count of elements,
/// each decoded from where the previous one ended, each with one less level
/// of nesting available.
pub open spec fn spec_decode_array(s: Seq<u8>, d: nat) -> Result<(ValueModel, int), RespError>
    recommends
        s.len() >= 1,
        d >= 1,
    decreases d, 0nat, 0nat,
{
    if d == 0 {
        Err(RespError::DepthExceeded)
    } else {
        match spec_header(s) {
        Err(e) => Err(e),
        Ok((n, h)) => {
            if n < 0 {
                Err(RespError::InvalidLength)
            } else {
                match spec_decode_elems(s.skip(h), n as nat, (d - 1) as nat) {
                    Err(e) => Err(e),
                    Ok((ms, c)) => Ok((ValueModel::Array(ms), h + c)),
                }
            }
        },
        }
    }
}

/// What decoding `count` consecutive values from the front of `s` returns:
/// the models in order and the total bytes they consumed.
pub open spec fn spec_decode_elems(s: Seq<u8>, count: nat, d: nat) -> Result<
    (Seq<ValueModel>, int),
    RespError,
>
    decreases d, 2nat, count,
{
    if count == 0 {
        Ok((Seq::empty(), 0))
    } else {
        match spec_decode(s, d) {
            Err(e) => Err(e),
            Ok((m, c)) => match spec_decode_elems(s.skip(c), (count - 1) as nat, d) {
                Err(e) => Err(e),
                Ok((ms, c2)) => Ok((seq![m] + ms, c + c2)),
            },
        }
    }
}

/// A decode can never consume more bytes than the buffer holds, and an
/// array decode yields exactly the declared count of elements. Together
/// with verification of the executable parsers this is the guarantee that
/// malformed input never causes out-of-bounds access.
pub proof fn lemma_decode_consumed(s: Seq<u8>, d: nat)
    ensures
        match spec_decode(s, d) {
            Ok((m, c)) => 0 <= c <= s.len(),
            Err(_) => true,
        },
    decreases d, 1nat, 0nat,
{
    if d > 0 && s.len() > 0 && s[0] == ARRAY_PREFIX {
        if let Ok((n, h)) = spec_header(s) {
            if n >= 0 {
                lemma_first_crlf(s.skip(1));
                lemma_decode_elems_consumed(s.skip(h), n as nat, (d - 1) as nat);
            }
        }
    }
    if d > 0 && s.len() > 0 && (s[0] == SIMPLE_PREFIX || s[0] == BULK_PREFIX) {
        lemma_first_crlf(s.skip(1));
    }
}

/// Companion of `lemma_decode_consumed` for element sequences.
pub proof fn lemma_decode_elems_consumed(s: Seq<u8>, count: nat, d: nat)
    ensures
        match spec_decode_elems(s, count, d) {
            Ok((ms, c)) => 0 <= c <= s.len() && ms.len() == count,
            Err(_) => true,
        },
    decreases d, 2nat, count,
{
    if count > 0 {
        lemma_decode_consumed(s, d);
        if let Ok((m, c)) = spec_decode(s, d) {
            lemma_decode_elems_consumed(s.skip(c), (count - 1) as nat, d);
        }
    }
}

/// With only digit bytes, a prefix of the literal never denotes more than
/// the whole literal.
pub proof fn lemma_digits_val_prefix(s: Seq<u8>, k: int)
    requires
        0 <= k <= s.len(),
        all_digits(s),
    ensures
        digits_val(s.take(k)) <= digits_val(s),
    decreases s.len(),
{
    if k < s.len() {
        let dl = s.drop_last();
        assert(all_digits(dl));
        assert(s.take(k) =~= dl.take(k));
        lemma_digits_val_prefix(dl, k);
        assert(is_digit(s.last()));
        assert(digits_val(s) == digits_val(dl) * 10 + (s.last() - 48));
    } else {
        assert(s.take(k) =~= s);
    }
}

/// Scan for the first delimiter pair. On success, returns the bytes that
/// precede it and the total length consumed including the delimiter.
pub fn read_until_crlf(buffer: &[u8]) -> (r: Option<(&[u8], usize)>)
    ensures
        match r {
            Some((line, n)) => {
                &&& n >= 2
                &&& n <= buffer@.len()
                &&& first_crlf(buffer@) == Some(n - 2)
                &&& line@ == buffer@.subrange(0, n - 2)
            },
            None => first_crlf(buffer@) == None::<int>,
        },
{
    let len = buffer.len();
    let mut i: usize = 1;
    while i < len
        invariant
            1 <= i,
            len == buffer@.len(),
            forall|j: int| 0 <= j < i - 1 ==> !crlf_at(buffer@, j),
        decreases len - i,
    {
        if *vstd::slice::slice_index_get(buffer, i - 1) == CR
            && *vstd::slice::slice_index_get(buffer, i) == LF {
            proof {
                lemma_first_crlf_at(buffer@, i - 1);
            }
            return Some((vstd::slice::slice_subrange(buffer, 0, i - 1), i + 1));
        }
        i += 1;
    }
    proof {
        lemma_first_crlf(buffer@);
        if let Some(p) = first_crlf(buffer@) {
            assert(crlf_at(buffer@, p));
            assert(false);
        }
    }
    None
}

/// Parse a base-10 signed integer literal, exactly as `spec_parse_int`
/// describes it: an optional sign, at least one digit, and a value within
/// the signed 64-bit range; anything else is an `InvalidLength` error.
pub fn parse_int(buffer: &[u8]) -> (r: Result<i64, RespError>)
    ensures
        r == spec_parse_int(buffer@),
{
    let ghost s = buffer@;
    let len = buffer.len();
    let mut idx: usize = 0;
    let mut neg = false;
    if len > 0 {
        let b0 = *vstd::slice::slice_index_get(buffer, 0);
        if b0 == 43 {
            idx = 1;
        } else if b0 == 45 {
            idx = 1;
            neg = true;
        }
    }
    let ghost off = idx as int;
    let ghost ds = int_digits(s);
    proof {
        assert(ds =~= s.skip(off));
        assert(neg == int_negative(s));
    }
    if idx >= len {
        assert(int_digits(s).len() == 0);
        return Err(RespError::InvalidLength);
    }
    let mut val: i64 = 0;
    let mut i = idx;
    while i < len
        invariant
            off <= i <= len,
            off == idx,
            idx <= 1,
            len == s.len(),
            buffer@ == s,
            ds == int_digits(s),
            ds == s.skip(off),
            neg == int_negative(s),
            all_digits(ds.take(i - off)),
            neg ==> val == -(digits_val(ds.take(i - off)) as int),
            !neg ==> val == digits_val(ds.take(i - off)) as int,
        decreases len - i,
    {
        let b = *vstd::slice::slice_index_get(buffer, i);
        proof {
            assert(ds[i - off] == s[i as int]);
        }
        if b < 48 || b > 57 {
            assert(!is_digit(ds[i - off]));
            assert(!valid_int(s));
            return Err(RespError::InvalidLength);
        }
        let d = (b - 48) as i64;
        let ghost pre = ds.take(i - off);
        let ghost cur = ds.take(i - off + 1);
        proof {
            assert(cur.drop_last() =~= pre);
            assert(cur.last() == s[i as int]);
            assert(digits_val(cur) == digits_val(pre) * 10 + (b - 48));
        }
        if !neg {
            if val > 922337203685477580 || (val == 922337203685477580 && d > 7) {
                proof {
                    if valid_int(s) {
                        lemma_digits_val_prefix(ds, i - off + 1);
                        assert(int_val(s) > i64::MAX);
                    }
                }
                return Err(RespError::InvalidLength);
            }
            val = val * 10 + d;
        } else {
            if val < -922337203685477580 || (val == -922337203685477580 && d > 8) {
                proof {
                    if valid_int(s) {
                        lemma_digits_val_prefix(ds, i - off + 1);
                        assert(int_val(s) < i64::MIN);
                    }
                }
                return Err(RespError::InvalidLength);
            }
            val = val * 10 - d;
        }
        i += 1;
        proof {
            assert(ds.take(i - off) == cur);
        }
    }
    proof {
        assert(ds.take(len - off) =~= ds);
        assert(valid_int(s));
        assert(int_val(s) == val as int);
    }
    Ok(val)
}

/// The executable result `r` is exactly what the decoding model `s` says:
/// the same typed error, or a value with the model's meaning and the same
/// consumed count.
pub open spec fn decodes_to(
    r: Result<(Value, usize), RespError>,
    s: Result<(ValueModel, int), RespError>,
) -> bool {
    match (r, s) {
        (Ok((v, c)), Ok((m, n))) => v@ == m && c as int == n,
        (Err(e1), Err(e2)) => e1 == e2,
        _ => false,
    }
}

/// Scan a frame's header line: the declared integer and the byte length of
/// the header, exactly as `spec_header` says.
pub fn parse_header(buffer: &[u8]) -> (r: Result<(i64, usize), RespError>)
    requires
        buffer@.len() >= 1,
    ensures
        match r {
            Ok((n, h)) => {
                &&& spec_header(buffer@) == Ok::<(i64, int), RespError>((n, h as int))
                &&& 3 <= h <= buffer@.len()
            },
            Err(e) => spec_header(buffer@) == Err::<(i64, int), RespError>(e),
        },
{
    let len = buffer.len();
    let tail = vstd::slice::slice_subrange(buffer, 1, len);
    proof {
        assert(tail@ =~= buffer@.skip(1));
    }
    match read_until_crlf(tail) {
        None => Err(RespError::MalformedHeader),
        Some((line, n2)) => {
            proof {
                assert(line@ =~= buffer@.subrange(1, 1 + (n2 - 2)));
            }
            match parse_int(line) {
                Err(e) => Err(e),
                Ok(v) => Ok((v, n2 + 1)),
            }
        },
    }
}

/// Decode a simple-string frame: the text up to the first delimiter,
/// exactly as `spec_decode_simple` says.
pub fn parse_simple_string(buffer: &[u8]) -> (r: Result<(Value, usize), RespError>)
    requires
        buffer@.len() >= 1,
    ensures
        decodes_to(r, spec_decode_simple(buffer@)),
{
    let len = buffer.len();
    let tail = vstd::slice::slice_subrange(buffer, 1, len);
    proof {
        assert(tail@ =~= buffer@.skip(1));
    }
    match read_until_crlf(tail) {
        None => Err(RespError::MalformedHeader),
        Some((line, n2)) => {
            proof {
                assert(line@ =~= buffer@.subrange(1, 1 + (n2 - 2)));
            }
            match utf8_string(line) {
                None => Err(RespError::InvalidEncoding),
                Some(text) => Ok((Value::SimpleString(text), n2 + 1)),
            }
        },
    }
}

/// Decode a bulk-string frame: a declared byte length, exactly that many
/// payload bytes, and the closing delimiter, exactly as `spec_decode_bulk`
/// says.
pub fn parse_bulk_string(buffer: &[u8]) -> (r: Result<(Value, usize), RespError>)
    requires
        buffer@.len() >= 1,
    ensures
        decodes_to(r, spec_decode_bulk(buffer@)),
{
    let len = buffer.len();
    let (n, h) = match parse_header(buffer) {
        Err(e) => {
            return Err(e);
        },
        Ok(p) => p,
    };
    if n < 0 {
        return Err(RespError::InvalidLength);
    }
    let avail = len - h;
    if avail < 2 || (n as u64) > (avail - 2) as u64 {
        return Err(RespError::TruncatedFrame);
    }
    let nn = n as usize;
    let end = h + nn;
    if !(*vstd::slice::slice_index_get(buffer, end) == CR
        && *vstd::slice::slice_index_get(buffer, end + 1) == LF) {
        return Err(RespError::DelimiterMismatch);
    }
    let payload = vstd::slice::slice_subrange(buffer, h, end);
    match utf8_string(payload) {
        None => Err(RespError::InvalidEncoding),
        Some(text) => Ok((Value::BulkString(text), end + 2)),
    }
}

/// Decode an array frame: a declared element count, then that many
/// consecutive values, each decoded where the previous one ended, exactly
/// as `spec_decode_array` says.
pub fn parse_array(buffer: &[u8], depth: u64) -> (r: Result<(Value, usize), RespError>)
    requires
        buffer@.len() >= 1,
        depth >= 1,
    ensures
        decodes_to(r, spec_decode_array(buffer@, depth as nat)),
    decreases depth, 0nat, 0nat,
{
    broadcast use crate::value::lemma_elems_view;

    let ghost s0 = buffer@;
    let ghost d2 = (depth - 1) as nat;
    let len = buffer.len();
    let (n, h) = match parse_header(buffer) {
        Err(e) => {
            return Err(e);
        },
        Ok(p) => p,
    };
    if n < 0 {
        return Err(RespError::InvalidLength);
    }
    let ghost rest = s0.skip(h as int);
    let mut items: Vec<Value> = Vec::new();
    let mut consumed: usize = h;
    let mut k: i64 = 0;
    while k < n
        invariant
            0 <= k <= n,
            h <= consumed <= len,
            len == s0.len(),
            buffer@ == s0,
            depth >= 1,
            d2 == (depth - 1) as nat,
            rest == s0.skip(h as int),
            n >= 0,
            spec_header(s0) == Ok::<(i64, int), RespError>((n, h as int)),
            3 <= h <= len,
            items@.len() == k,
            spec_decode_elems(rest, n as nat, d2) == (match spec_decode_elems(
                s0.skip(consumed as int),
                (n - k) as nat,
                d2,
            ) {
                Ok((ms2, c2)) => Ok::<(Seq<ValueModel>, int), RespError>(
                    (elems_view(items@) + ms2, (consumed - h) + c2),
                ),
                Err(e) => Err::<(Seq<ValueModel>, int), RespError>(e),
            }),
        decreases n - k,
    {
        let sub = vstd::slice::slice_subrange(buffer, consumed, len);
        proof {
            assert(sub@ =~= s0.skip(consumed as int));
        }
        match parse_value(sub, depth - 1) {
            Err(e) => {
                return Err(e);
            },
            Ok((v, c)) => {
                proof {
                    lemma_decode_consumed(sub@, d2);
                    assert(s0.skip(consumed as int).skip(c as int) =~= s0.skip(consumed + c));
                }
                let ghost old_items = items@;
                items.push(v);
                proof {
                    let inner = spec_decode_elems(s0.skip(consumed + c), (n - k - 1) as nat, d2);
                    match inner {
                        Ok((ms2, c2)) => {
                            assert(elems_view(old_items) + (seq![v@] + ms2) =~= elems_view(
                                old_items,
                            ).push(v@) + ms2);
                        },
                        Err(_) => {},
                    }
                    assert(items@ == old_items.push(v));
                    assert(old_items.push(v).drop_last() =~= old_items);
                    assert(old_items.push(v).last() == v);
                    assert(elems_view(items@) == elems_view(old_items).push(v@));
                }
                consumed = consumed + c;
                k = k + 1;
            },
        }
    }
    proof {
        assert(spec_decode_elems(s0.skip(consumed as int), 0, d2) == Ok::<
            (Seq<ValueModel>, int),
            RespError,
        >((Seq::empty(), 0)));
        assert(elems_view(items@) + Seq::<ValueModel>::empty() =~= elems_view(items@));
    }
    Ok((Value::Array(items), consumed))
}

/// Decode one value from the front of the buffer, dispatching on its
/// prefix byte, with at most `depth` levels of nesting available. The
/// result is exactly what `spec_decode` says, error cases included.
pub fn parse_value(buffer: &[u8], depth: u64) -> (r: Result<(Value, usize), RespError>)
    ensures
        decodes_to(r, spec_decode(buffer@, depth as nat)),
    decreases depth, 1nat, 0nat,
{
    if depth == 0 {
        return Err(RespError::DepthExceeded);
    }
    let len = buffer.len();
    if len == 0 {
        return Err(RespError::MalformedHeader);
    }
    let t = *vstd::slice::slice_index_get(buffer, 0);
    if t == SIMPLE_PREFIX {
        parse_simple_string(buffer)
    } else if t == BULK_PREFIX {
        parse_bulk_string(buffer)
    } else if t == ARRAY_PREFIX {
        parse_array(buffer, depth)
    } else {
        Err(RespError::UnknownType)
    }
}

/// Decode one complete value from the front of the buffer, with the
/// default nesting limit, returning it together with the number of bytes
/// it occupied.
pub fn parse_message(buffer: &[u8]) -> (r: Result<(Value, usize), RespError>)
    ensures
        decodes_to(r, spec_decode(buffer@, MAX_DEPTH as nat)),
{
    parse_value(buffer, MAX_DEPTH)
}

} // verus!
