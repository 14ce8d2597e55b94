//! The value model: the tagged union of decodable/encodable protocol
//! values, its mathematical model, and the spec-level wire encoding.
//!
//! Texts are UTF-8 on the wire, and every declared length counts bytes, not
//! characters: `encoding` is stated over `vstd`'s UTF-8 model.

use vstd::prelude::*;

verus! {

/// Carriage return, the first byte of the frame delimiter.
pub const CR: u8 = 13;

/// Line feed, the second byte of the frame delimiter.
pub const LF: u8 = 10;

/// Prefix byte of a simple-string frame, `+`.
pub const SIMPLE_PREFIX: u8 = 43;

/// Prefix byte of a bulk-string frame, `$`.
pub const BULK_PREFIX: u8 = 36;

/// Prefix byte of an array frame, `*`.
pub const ARRAY_PREFIX: u8 = 42;

/// A decoded protocol value: a short delimiter-terminated text reply, an
/// explicit-length byte string, or an ordered sequence of nested values.
#[derive(Debug, PartialEq)]
pub enum Value {
    SimpleString(String),
    BulkString(String),
    Array(Vec<Value>),
}

/// The mathematical model of a `Value`: strings as character sequences and
/// arrays as sequences of models.
pub enum ValueModel {
    SimpleString(Seq<char>),
    BulkString(Seq<char>),
    Array(Seq<ValueModel>),
}

impl View for Value {
    type V = ValueModel;

    open spec fn view(&self) -> ValueModel
        decreases self,
    {
        match self {
            Value::SimpleString(s) => ValueModel::SimpleString(s@),
            Value::BulkString(s) => ValueModel::BulkString(s@),
            Value::Array(vs) => ValueModel::Array(elems_view(vs@)),
        }
    }
}

/// The models of a sequence of values, element by element.
pub open spec fn elems_view(s: Seq<Value>) -> Seq<ValueModel>
    decreases s,
{
    if s.len() == 0 {
        Seq::empty()
    } else {
        elems_view(s.drop_last()).push(s.last()@)
    }
}

/// `elems_view` maps a sequence of values to their models pointwise.
pub broadcast proof fn lemma_elems_view(s: Seq<Value>)
    ensures
        (#[trigger] elems_view(s)).len() == s.len(),
        forall|i: int| 0 <= i < s.len() ==> elems_view(s)[i] == s[i]@,
    decreases s.len(),
{
    if s.len() > 0 {
        lemma_elems_view(s.drop_last());
        assert(elems_view(s) == elems_view(s.drop_last()).push(s.last()@));
        assert forall|i: int| 0 <= i < s.len() implies elems_view(s)[i] == s[i]@ by {
            if i < s.len() - 1 {
                assert(s.drop_last()[i] == s[i]);
            }
        }
    }
}

/// The UTF-8 bytes that a text occupies on the wire.
pub open spec fn text_bytes(s: Seq<char>) -> Seq<u8> {
    vstd::utf8::encode_utf8(s)
}

/// The delimiter pair occurs nowhere in the byte sequence.
pub open spec fn no_crlf_bytes(b: Seq<u8>) -> bool {
    forall|i: int| 0 <= i && i + 1 < b.len() ==> !((#[trigger] b[i]) == CR && b[i + 1] == LF)
}

/// Well-formedness of a value model: exactly the values the wire format can
/// represent. A simple string's wire bytes never contain the delimiter
/// sequence, and every byte length and element count fits the signed
/// 64-bit integer a frame header can declare.
pub open spec fn wf(m: ValueModel) -> bool
    decreases m,
{
    match m {
        ValueModel::SimpleString(s) => no_crlf_bytes(text_bytes(s)) && text_bytes(s).len()
            <= i64::MAX,
        ValueModel::BulkString(s) => text_bytes(s).len() <= i64::MAX,
        ValueModel::Array(ms) => ms.len() <= i64::MAX && wf_elems(ms),
    }
}

/// Well-formedness of every element of an array.
pub open spec fn wf_elems(ms: Seq<ValueModel>) -> bool
    decreases ms,
{
    if ms.len() == 0 {
        true
    } else {
        wf_elems(ms.drop_last()) && wf(ms.last())
    }
}

/// An array's elements are well-formed exactly when each one is.
pub broadcast proof fn lemma_wf_elems(ms: Seq<ValueModel>)
    ensures
        #[trigger] wf_elems(ms) <==> (forall|i: int| 0 <= i < ms.len() ==> wf(#[trigger] ms[i])),
    decreases ms.len(),
{
    if ms.len() > 0 {
        lemma_wf_elems(ms.drop_last());
        assert(wf_elems(ms) == (wf_elems(ms.drop_last()) && wf(ms.last())));
        if wf_elems(ms) {
            assert forall|i: int| 0 <= i < ms.len() implies wf(#[trigger] ms[i]) by {
                if i < ms.len() - 1 {
                    assert(ms.drop_last()[i] == ms[i]);
                }
            }
        }
        if forall|i: int| 0 <= i < ms.len() ==> wf(#[trigger] ms[i]) {
            assert forall|i: int| 0 <= i < ms.drop_last().len() implies wf(#[trigger] ms.drop_last()[i]) by {
                assert(ms.drop_last()[i] == ms[i]);
            }
        }
    }
}

/// Nesting depth of a value model: scalars have depth one, an array is one
/// deeper than its deepest element.
pub open spec fn depth(m: ValueModel) -> nat
    decreases m,
{
    match m {
        ValueModel::SimpleString(_) => 1,
        ValueModel::BulkString(_) => 1,
        ValueModel::Array(ms) => 1 + depth_elems(ms),
    }
}

/// The deepest nesting depth among the elements of an array.
pub open spec fn depth_elems(ms: Seq<ValueModel>) -> nat
    decreases ms,
{
    if ms.len() == 0 {
        0
    } else if depth(ms.last()) > depth_elems(ms.drop_last()) {
        depth(ms.last())
    } else {
        depth_elems(ms.drop_last())
    }
}

/// Every element of an array is at most as deep as `depth_elems` says.
pub proof fn lemma_depth_elems(ms: Seq<ValueModel>)
    ensures
        forall|i: int| 0 <= i < ms.len() ==> depth(#[trigger] ms[i]) <= depth_elems(ms),
    decreases ms.len(),
{
    if ms.len() > 0 {
        lemma_depth_elems(ms.drop_last());
        assert(depth_elems(ms) == if depth(ms.last()) > depth_elems(ms.drop_last()) { depth(ms.last()) } else { depth_elems(ms.drop_last()) });
        assert forall|i: int| 0 <= i < ms.len() implies depth(#[trigger] ms[i]) <= depth_elems(ms) by {
            if i < ms.len() - 1 {
                assert(ms.drop_last()[i] == ms[i]);
            }
        }
    }
}

/// The characters that 7-bit bytes decode to, one per byte.
pub open spec fn chars_of(b: Seq<u8>) -> Seq<char> {
    Seq::new(b.len(), |i: int| b[i] as char)
}

/// The two-byte frame delimiter.
pub open spec fn crlf() -> Seq<u8> {
    seq![CR, LF]
}

/// The shortest base-10 representation of `n` in ASCII digit bytes.
pub open spec fn dec_bytes(n: nat) -> Seq<u8>
    decreases n,
{
    if n < 10 {
        seq![(48 + n) as u8]
    } else {
        dec_bytes(n / 10).push((48 + n % 10) as u8)
    }
}

/// The exact wire encoding of a value model: the prefix byte, the
/// delimiter-terminated header, and, for bulk strings and arrays, the
/// payload that the header's declared byte length or element count
/// describes.
pub open spec fn encoding(m: ValueModel) -> Seq<u8>
    decreases m,
{
    match m {
        ValueModel::SimpleString(s) => seq![SIMPLE_PREFIX] + text_bytes(s) + crlf(),
        ValueModel::BulkString(s) => seq![BULK_PREFIX] + dec_bytes(text_bytes(s).len()) + crlf()
            + text_bytes(s) + crlf(),
        ValueModel::Array(ms) => seq![ARRAY_PREFIX] + dec_bytes(ms.len()) + crlf() + encoding_elems(ms),
    }
}

/// The concatenated encodings of an array's elements, in order, with no
/// separators between them.
pub open spec fn encoding_elems(ms: Seq<ValueModel>) -> Seq<u8>
    decreases ms,
{
    if ms.len() == 0 {
        Seq::empty()
    } else {
        encoding_elems(ms.drop_last()) + encoding(ms.last())
    }
}

/// Relies on `String::push`: appends exactly the given character to the
/// end of the string.
#[verifier::external_body]
pub(crate) fn push_char(s: &mut String, c: char)
    ensures
        final(s)@ == old(s)@.push(c),
{
    s.push(c);
}

/// Relies on `String::from_utf8`: accepts exactly the valid UTF-8 byte
/// sequences and yields the text they encode.
#[verifier::external_body]
fn string_from_utf8(b: Vec<u8>) -> (r: Option<String>)
    ensures
        match r {
            Some(text) => vstd::utf8::valid_utf8(b@) && text@ == vstd::utf8::decode_utf8(b@),
            None => !vstd::utf8::valid_utf8(b@),
        },
{
    match String::from_utf8(b) {
        Ok(s) => Some(s),
        Err(_) => None,
    }
}

/// Copy a byte slice out into an owned text value, exactly when the bytes
/// are valid UTF-8.
pub fn utf8_string(b: &[u8]) -> (r: Option<String>)
    ensures
        match r {
            Some(text) => vstd::utf8::valid_utf8(b@) && text@ == vstd::utf8::decode_utf8(b@),
            None => !vstd::utf8::valid_utf8(b@),
        },
{
    let owned = vstd::slice::slice_to_vec(b);
    string_from_utf8(owned)
}

/// A 7-bit code point and its byte convert back and forth exactly.
pub proof fn lemma_low_char_byte(c: char)
    requires
        (c as u32) < 128,
    ensures
        (c as u8) < 128,
        ((c as u8) as char) == c,
        (c as u8) as u32 == c as u32,
        '\0' <= c <= '\u{7f}',
{
    let u = c as u32;
    assert(c as u8 == u as u8);
    assert(u < 128 ==> (u as u8) < 128 && (u as u8) as u32 == u) by (bit_vector);
    assert(((c as u8) as char) == c);
    assert('\0' <= c);
    assert(c <= '\u{7f}');
}

/// UTF-8 encodes a sequence of 7-bit characters one byte per character.
pub proof fn lemma_encode_utf8_low(s: Seq<char>)
    requires
        forall|i: int| 0 <= i < s.len() ==> ((#[trigger] s[i]) as u32) < 128,
    ensures
        vstd::utf8::encode_utf8(s) == Seq::new(s.len(), |i: int| s[i] as u8),
{
    assert forall|i| 0 <= i < s.len() implies '\0' <= #[trigger] s[i] <= '\u{7f}' by {
        lemma_low_char_byte(s[i]);
    }
    assert(vstd::utf8::is_ascii_chars(s));
    vstd::utf8::is_ascii_chars_encode_utf8(s);
    assert(vstd::utf8::encode_utf8(s) =~= Seq::new(s.len(), |i: int| s[i] as u8));
}

/// Bytes below 128, read as characters, UTF-8 encode back to themselves.
pub proof fn lemma_encode_utf8_of_low_bytes(b: Seq<u8>)
    requires
        forall|i: int| 0 <= i < b.len() ==> (#[trigger] b[i]) < 128,
    ensures
        vstd::utf8::encode_utf8(chars_of(b)) == b,
{
    let cs = chars_of(b);
    assert forall|i: int| 0 <= i < cs.len() implies ((#[trigger] cs[i]) as u32) < 128 by {
        assert(cs[i] == b[i] as char);
    }
    lemma_encode_utf8_low(cs);
    assert(vstd::utf8::encode_utf8(cs) =~= b);
}

/// UTF-8 encoding distributes over concatenation of texts.
pub proof fn lemma_encode_utf8_concat(a: Seq<char>, b: Seq<char>)
    ensures
        vstd::utf8::encode_utf8(a + b) == vstd::utf8::encode_utf8(a) + vstd::utf8::encode_utf8(b),
    decreases a.len(),
{
    if a.len() == 0 {
        assert(a + b =~= b);
        assert(vstd::utf8::encode_utf8(a) + vstd::utf8::encode_utf8(b) =~= vstd::utf8::encode_utf8(
            b,
        ));
    } else {
        assert((a + b)[0] == a[0]);
        assert((a + b).drop_first() =~= a.drop_first() + b);
        lemma_encode_utf8_concat(a.drop_first(), b);
        assert(vstd::utf8::encode_scalar(a[0] as u32) + (vstd::utf8::encode_utf8(a.drop_first())
            + vstd::utf8::encode_utf8(b)) =~= (vstd::utf8::encode_scalar(a[0] as u32)
            + vstd::utf8::encode_utf8(a.drop_first())) + vstd::utf8::encode_utf8(b));
    }
}

/// Every digit byte of `dec_bytes` lies in the ASCII digit range.
pub proof fn lemma_dec_bytes_range(n: nat)
    ensures
        dec_bytes(n).len() >= 1,
        forall|i: int| 0 <= i < dec_bytes(n).len() ==> 48 <= (#[trigger] dec_bytes(n)[i]) <= 57,
    decreases n,
{
    if n >= 10 {
        lemma_dec_bytes_range(n / 10);
        let d = dec_bytes(n);
        assert(d == dec_bytes(n / 10).push((48 + n % 10) as u8));
        assert forall|i: int| 0 <= i < d.len() implies 48 <= (#[trigger] d[i]) <= 57 by {
            if i < d.len() - 1 {
                assert(d[i] == dec_bytes(n / 10)[i]);
            }
        }
    }
}

/// Render a number as its shortest base-10 digit string, exactly the
/// characters of `dec_bytes`.
pub fn dec_string(n: usize) -> (r: String)
    ensures
        r@ == chars_of(dec_bytes(n as nat)),
    decreases n,
{
    if n < 10 {
        let mut out = String::new();
        let d: u8 = 48 + (n as u8);
        push_char(&mut out, d as char);
        proof {
            assert(Seq::<char>::empty().push(d as char) =~= chars_of(dec_bytes(n as nat)));
        }
        out
    } else {
        let mut out = dec_string(n / 10);
        let d: u8 = 48 + ((n % 10) as u8);
        push_char(&mut out, d as char);
        proof {
            assert(dec_bytes(n as nat) == dec_bytes((n as nat) / 10).push((48 + (n as nat) % 10) as u8));
            assert(chars_of(dec_bytes((n as nat) / 10)).push(d as char) =~= chars_of(dec_bytes(n as nat)));
        }
        out
    }
}

/// The digit characters of `dec_string` occupy exactly the `dec_bytes`
/// digits on the wire.
proof fn lemma_dec_chars_bytes(n: nat)
    ensures
        vstd::utf8::encode_utf8(chars_of(dec_bytes(n))) == dec_bytes(n),
{
    lemma_dec_bytes_range(n);
    lemma_encode_utf8_of_low_bytes(dec_bytes(n));
}

/// Build the wire text of a well-formed value: a string whose UTF-8 bytes
/// are exactly the value's `encoding`.
#[verifier::loop_isolation(false)]
fn encode_ref(v: &Value) -> (r: String)
    requires
        wf(v@),
    ensures
        vstd::utf8::encode_utf8(r@) == encoding(v@),
    decreases v,
{
    broadcast use lemma_elems_view;

    match v {
        Value::SimpleString(s) => {
            let mut out = String::from_str("+");
            out.append(s.as_str());
            out.append("\r\n");
            proof {
                reveal_strlit("+");
                reveal_strlit("\r\n");
                lemma_encode_utf8_concat("+"@ + s@, "\r\n"@);
                lemma_encode_utf8_concat("+"@, s@);
                lemma_encode_utf8_low("+"@);
                lemma_encode_utf8_low("\r\n"@);
                assert(vstd::utf8::encode_utf8("+"@) =~= seq![SIMPLE_PREFIX]);
                assert(vstd::utf8::encode_utf8("\r\n"@) =~= crlf());
            }
            out
        },
        Value::BulkString(s) => {
            let mut out = String::from_str("$");
            let body = s.as_str().as_bytes();
            proof {
                assert(body@ == text_bytes(s@));
            }
            let lenstr = dec_string(body.len());
            out.append(lenstr.as_str());
            out.append("\r\n");
            out.append(s.as_str());
            out.append("\r\n");
            proof {
                reveal_strlit("$");
                reveal_strlit("\r\n");
                let digits = chars_of(dec_bytes(text_bytes(s@).len()));
                lemma_encode_utf8_concat("$"@ + digits + "\r\n"@ + s@, "\r\n"@);
                lemma_encode_utf8_concat("$"@ + digits + "\r\n"@, s@);
                lemma_encode_utf8_concat("$"@ + digits, "\r\n"@);
                lemma_encode_utf8_concat("$"@, digits);
                lemma_encode_utf8_low("$"@);
                lemma_encode_utf8_low("\r\n"@);
                lemma_dec_chars_bytes(text_bytes(s@).len());
                assert(vstd::utf8::encode_utf8("$"@) =~= seq![BULK_PREFIX]);
                assert(vstd::utf8::encode_utf8("\r\n"@) =~= crlf());
            }
            out
        },
        Value::Array(vs) => {
            let count = vs.len();
            let mut out = String::from_str("*");
            let lenstr = dec_string(count);
            out.append(lenstr.as_str());
            out.append("\r\n");
            let ghost t = elems_view(vs@);
            let ghost header = seq![ARRAY_PREFIX] + dec_bytes(t.len()) + crlf();
            proof {
                reveal_strlit("*");
                reveal_strlit("\r\n");
                let digits = chars_of(dec_bytes(t.len()));
                lemma_encode_utf8_concat("*"@ + digits, "\r\n"@);
                lemma_encode_utf8_concat("*"@, digits);
                lemma_encode_utf8_low("*"@);
                lemma_encode_utf8_low("\r\n"@);
                lemma_dec_chars_bytes(t.len());
                assert(vstd::utf8::encode_utf8("*"@) =~= seq![ARRAY_PREFIX]);
                assert(vstd::utf8::encode_utf8("\r\n"@) =~= crlf());
                assert(t.take(0) =~= Seq::<ValueModel>::empty());
                assert(header + encoding_elems(t.take(0)) =~= header);
                assert(v@ == ValueModel::Array(t));
                lemma_wf_elems(t);
            }
            let mut i: usize = 0;
            while i < count
                invariant
                    0 <= i <= count,
                    vstd::utf8::encode_utf8(out@) == header + encoding_elems(t.take(i as int)),
                decreases count - i,
            {
                proof {
                    assert(wf(t[i as int]));
                    assert(vs@[i as int]@ == t[i as int]);
                }
                let piece = encode_ref(&vs[i]);
                let ghost pre_text = out@;
                out.append(piece.as_str());
                proof {
                    let old_body = header + encoding_elems(t.take(i as int));
                    assert(t.take(i + 1).drop_last() =~= t.take(i as int));
                    assert(t.take(i + 1).last() == t[i as int]);
                    assert(encoding_elems(t.take(i + 1)) == encoding_elems(t.take(i as int))
                        + encoding(t[i as int]));
                    lemma_encode_utf8_concat(pre_text, piece@);
                    assert(old_body + encoding(t[i as int]) =~= header + encoding_elems(
                        t.take(i + 1),
                    ));
                }
                i += 1;
            }
            proof {
                assert(t.take(count as int) =~= t);
            }
            out
        },
    }
}

impl Value {
    /// Serialise a well-formed value (see `check_wf`) into its exact wire
    /// representation, as text: the string's UTF-8 bytes — what
    /// `as_bytes` hands a transport — are exactly `encoding` of the
    /// value's model.
    pub fn serialise(self) -> (r: String)
        requires
            wf(self@),
        ensures
            vstd::utf8::encode_utf8(r@) == encoding(self@),
    {
        encode_ref(&self)
    }
}

/// Check a text against the wire format's limits: a byte length the
/// header can declare, and, for a simple string, no delimiter sequence
/// among its bytes.
#[verifier::loop_isolation(false)]
fn check_text(s: &String, forbid_crlf: bool) -> (r: bool)
    ensures
        r == (text_bytes(s@).len() <= i64::MAX && (forbid_crlf ==> no_crlf_bytes(text_bytes(s@)))),
{
    let b = s.as_str().as_bytes();
    proof {
        assert(b@ == text_bytes(s@));
    }
    let n = b.len();
    if (n as u64) > (i64::MAX as u64) {
        return false;
    }
    if !forbid_crlf {
        return true;
    }
    let mut i: usize = 1;
    while i < n
        invariant
            1 <= i,
            n == b@.len(),
            forall|j: int| 0 <= j < i - 1 ==> !((#[trigger] b@[j]) == CR && b@[j + 1] == LF),
        decreases n - i,
    {
        if *vstd::slice::slice_index_get(b, i - 1) == CR
            && *vstd::slice::slice_index_get(b, i) == LF {
            proof {
                assert(!no_crlf_bytes(b@));
            }
            return false;
        }
        i += 1;
    }
    proof {
        assert(no_crlf_bytes(b@));
    }
    true
}

/// Decide well-formedness of a value: whether `wf` holds of its model, so
/// whether the value is representable on the wire.
#[verifier::loop_isolation(false)]
pub fn check_wf(v: &Value) -> (r: bool)
    ensures
        r == wf(v@),
    decreases v,
{
    broadcast use lemma_elems_view;

    match v {
        Value::SimpleString(s) => check_text(s, true),
        Value::BulkString(s) => check_text(s, false),
        Value::Array(vs) => {
            let count = vs.len();
            if (count as u64) > (i64::MAX as u64) {
                proof {
                    assert(v@ == ValueModel::Array(elems_view(vs@)));
                    assert(elems_view(vs@).len() == vs@.len());
                    assert(!wf(v@));
                }
                return false;
            }
            let ghost t = elems_view(vs@);
            proof {
                lemma_wf_elems(t);
            }
            let mut i: usize = 0;
            while i < count
                invariant
                    0 <= i <= count,
                    count == vs@.len(),
                    t == elems_view(vs@),
                    forall|j: int| 0 <= j < i ==> wf(#[trigger] t[j]),
                decreases count - i,
            {
                if !check_wf(&vs[i]) {
                    proof {
                        assert(t[i as int] == vs@[i as int]@);
                        assert(!wf(t[i as int]));
                        lemma_wf_elems(t);
                        assert(!wf_elems(t));
                        assert(v@ == ValueModel::Array(t));
                    }
                    return false;
                }
                i += 1;
            }
            proof {
                lemma_wf_elems(t);
                assert(v@ == ValueModel::Array(t));
            }
            true
        },
    }
}

/// Deep-copy a value; the copy has the same model.
#[verifier::loop_isolation(false)]
fn clone_ref(v: &Value) -> (r: Value)
    ensures
        r@ == v@,
    decreases v,
{
    broadcast use lemma_elems_view;

    match v {
        Value::SimpleString(s) => Value::SimpleString(s.clone()),
        Value::BulkString(s) => Value::BulkString(s.clone()),
        Value::Array(vs) => {
            let count = vs.len();
            let mut out: Vec<Value> = Vec::new();
            let mut i: usize = 0;
            while i < count
                invariant
                    0 <= i <= count,
                    out@.len() == i,
                    forall|j: int| 0 <= j < i ==> (#[trigger] out@[j])@ == vs@[j]@,
                decreases count - i,
            {
                let c = clone_ref(&vs[i]);
                out.push(c);
                i += 1;
            }
            proof {
                lemma_elems_view(out@);
                lemma_elems_view(vs@);
                assert(elems_view(out@) =~= elems_view(vs@));
            }
            Value::Array(out)
        },
    }
}

impl Clone for Value {
    /// The copy is indistinguishable from the original: same model.
    fn clone(&self) -> (r: Value)
        ensures
            r@ == self@,
    {
        clone_ref(self)
    }
}

} // verus!
