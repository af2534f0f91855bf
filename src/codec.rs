//! The wire codec: bytes to protocol values and back.
use vstd::prelude::*;
use vstd::utf8::*;
use crate::text::{
    all_digits, ascii_text, decimal_bytes, digits_value, lemma_ascii_bytes, lemma_decimal_bytes, parse_i64, push_bytes,
    push_decimal, signed_decimal, text_of, utf8_text,
};

verus! {

/// A protocol value.
#[derive(Debug)]
pub enum Value {
    SimpleString(String),
    BulkString(String),
    Array(Vec<Value>),
    Nil,
}

/// The mathematical form of a [`Value`].
pub enum ValueModel {
    Simple(Seq<char>),
    Bulk(Seq<char>),
    Array(Seq<ValueModel>),
    Nil,
}

impl Clone for Value {
    fn clone(&self) -> (r: Value)
        ensures
            r@ == self@,
    {
        self.deep_copy()
    }
}

impl View for Value {
    type V = ValueModel;

    open spec fn view(&self) -> ValueModel
        decreases self,
    {
        match self {
            Value::SimpleString(s) => ValueModel::Simple(s@),
            Value::BulkString(s) => ValueModel::Bulk(s@),
            Value::Array(items) => ValueModel::Array(
                Seq::new(
                    items.len() as nat,
                    |i: int|
                        if 0 <= i < items.len() {
                            items[i].view()
                        } else {
                            ValueModel::Nil
                        },
                ),
            ),
            Value::Nil => ValueModel::Nil,
        }
    }
}

/// Why a buffer did not decode.
#[derive(Debug, Clone, Copy, PartialEq, Eq, Structural)]
pub enum DecodeError {
    /// The buffer ends before the message does; more bytes may complete it.
    Incomplete,
    /// The bytes can never form a message.
    Malformed,
}

/// Why a value could not be encoded.
#[derive(Debug, Clone, Copy, PartialEq, Eq, Structural)]
pub enum EncodeError {
    /// Only scalar values are sent as replies.
    UnsupportedReply,
}

/// The terminator: carriage return, line feed.
pub open spec fn crlf() -> Seq<u8> {
    seq![13u8, 10u8]
}

/// The bytes of a bulk string holding `s`.
pub open spec fn bulk_bytes(s: Seq<char>) -> Seq<u8> {
    seq![36u8] + decimal_bytes(encode_utf8(s).len()) + crlf() + encode_utf8(s) + crlf()
}

/// The bulk strings of a run of bytes of text, one after another.
pub open spec fn bulks_bytes(words: Seq<Seq<char>>) -> Seq<u8>
    decreases words.len(),
{
    if words.len() == 0 {
        seq![]
    } else {
        bulk_bytes(words[0]) + bulks_bytes(words.drop_first())
    }
}

/// The bytes that a request is sent as: an array of bulk strings, the
/// command word first.
pub open spec fn request_bytes(words: Seq<Seq<char>>) -> Seq<u8> {
    seq![42u8] + decimal_bytes(words.len()) + crlf() + bulks_bytes(words)
}

/// The model of an array item for each word.
pub open spec fn bulk_models(words: Seq<Seq<char>>) -> Seq<ValueModel> {
    Seq::new(words.len(), |j: int| ValueModel::Bulk(words[j]))
}

/// The bytes that a reply is sent as; `None` for values that are never sent.
pub open spec fn encoding(m: ValueModel) -> Option<Seq<u8>> {
    match m {
        ValueModel::Simple(s) => Some(seq![43u8] + encode_utf8(s) + crlf()),
        ValueModel::Bulk(s) => Some(bulk_bytes(s)),
        ValueModel::Nil => Some(seq![36u8, 45u8, 49u8, 13u8, 10u8]),
        ValueModel::Array(_) => None,
    }
}

/// How many bytes of `b` lie at or after offset `i`.
pub open spec fn remaining(b: Seq<u8>, i: int) -> nat {
    if i < b.len() {
        (b.len() - i) as nat
    } else {
        0
    }
}

/// The length of the line that starts at `i`: the bytes before the first
/// carriage return and line feed pair at or after `i`.
pub open spec fn line_len(b: Seq<u8>, i: int) -> Option<nat>
    decreases b.len() - i,
{
    if i < 0 || i + 1 >= b.len() {
        None
    } else if b[i] == 13u8 && b[i + 1] == 10u8 {
        Some(0)
    } else {
        match line_len(b, i + 1) {
            Some(n) => Some(n + 1),
            None => None,
        }
    }
}

/// Where the bytes of an unfinished header line from `from` end, leaving
/// out a carriage return that may be the start of the terminator.
pub open spec fn unfinished_end(b: Seq<u8>, from: int) -> int {
    if b.len() > from && b[b.len() - 1] == 13u8 {
        b.len() - 1
    } else {
        b.len() as int
    }
}

/// Whether the unfinished header line from `from` may still become a
/// number: an optional sign, then digits.
pub open spec fn may_be_number(b: Seq<u8>, from: int) -> bool {
    forall|j: int|
        from <= j < unfinished_end(b, from) ==> (48u8 <= #[trigger] b[j] <= 57u8) || (j == from && (
        b[j] == 43u8 || b[j] == 45u8))
}

/// The integer that a header line holds, if it is a decimal within `i64`.
pub open spec fn line_int(b: Seq<u8>) -> Option<int> {
    match text_of(b) {
        Some(t) => match signed_decimal(t) {
            Some(v) => if i64::MIN <= v <= i64::MAX {
                Some(v)
            } else {
                None
            },
            None => None,
        },
        None => None,
    }
}

/// The value that starts at offset `i` of `b`, with the number of bytes it
/// takes.
pub open spec fn parse_at(b: Seq<u8>, i: int) -> Result<(ValueModel, nat), DecodeError>
    decreases remaining(b, i), 0int, 0int,
{
    if i < 0 || i >= b.len() {
        Err(DecodeError::Incomplete)
    } else if b[i] != 43u8 && b[i] != 42u8 && b[i] != 36u8 {
        Err(DecodeError::Malformed)
    } else {
        match line_len(b, i + 1) {
            None => if b[i] != 43u8 && !may_be_number(b, i + 1) {
                Err(DecodeError::Malformed)
            } else {
                Err(DecodeError::Incomplete)
            },
            Some(n) => {
                let line = b.subrange(i + 1, i + 1 + n);
                let body = i + n + 3;
                if b[i] == 43u8 {
                    match text_of(line) {
                        None => Err(DecodeError::Malformed),
                        Some(t) => Ok((ValueModel::Simple(t), n + 3)),
                    }
                } else {
                    match line_int(line) {
                        None => Err(DecodeError::Malformed),
                        Some(k) => if k < 0 {
                            if b[i] == 36u8 && k == -1 {
                                Ok((ValueModel::Nil, n + 3))
                            } else {
                                Err(DecodeError::Malformed)
                            }
                        } else if b[i] == 42u8 {
                            match items_at(b, body, k as nat) {
                                Ok((items, used)) => Ok((ValueModel::Array(items), n + 3 + used)),
                                Err(e) => Err(e),
                            }
                        } else if body + k < b.len() && b[body + k] != 13u8 {
                            Err(DecodeError::Malformed)
                        } else if body + k + 1 < b.len() && b[body + k + 1] != 10u8 {
                            Err(DecodeError::Malformed)
                        } else if body + k + 2 > b.len() {
                            Err(DecodeError::Incomplete)
                        } else {
                            match text_of(b.subrange(body, body + k)) {
                                None => Err(DecodeError::Malformed),
                                Some(t) => Ok((ValueModel::Bulk(t), n + 3 + k as nat + 2)),
                            }
                        },
                    }
                }
            },
        }
    }
}

/// `count` values one after another from offset `i` of `b`, with the number
/// of bytes they take together.
pub open spec fn items_at(b: Seq<u8>, i: int, count: nat) -> Result<
    (Seq<ValueModel>, nat),
    DecodeError,
>
    decreases remaining(b, i), 1int, count as int,
{
    if count == 0 {
        Ok((seq![], 0))
    } else if i < 0 || i >= b.len() {
        Err(DecodeError::Incomplete)
    } else {
        match parse_at(b, i) {
            Err(e) => Err(e),
            Ok((first, used)) => match items_at(b, i + used, (count - 1) as nat) {
                Err(e) => Err(e),
                Ok((rest, more)) => Ok((seq![first] + rest, used + more)),
            },
        }
    }
}

/// `prefix` and `used` put in front of what a later part of a buffer gave.
pub open spec fn glue(
    prefix: Seq<ValueModel>,
    used: nat,
    r: Result<(Seq<ValueModel>, nat), DecodeError>,
) -> Result<(Seq<ValueModel>, nat), DecodeError> {
    match r {
        Ok((rest, more)) => Ok((prefix + rest, used + more)),
        Err(e) => Err(e),
    }
}

/// The mathematical forms of a run of values.
pub open spec fn models(items: Seq<Value>) -> Seq<ValueModel> {
    Seq::new(items.len(), |j: int| items[j]@)
}

/// The length of the line that starts at `start`, if it ends in the buffer.
fn read_until_crlf(buffer: &[u8], start: usize) -> (r: Option<usize>)
    ensures
        match line_len(buffer@, start as int) {
            Some(n) => r == Some(n as usize) && start + n + 2 <= buffer@.len(),
            None => r is None,
        },
{
    if buffer.len() < 2 {
        return None;
    }
    let mut k: usize = start;
    while k < buffer.len() - 1
        invariant
            start <= k,
            buffer@.len() >= 2,
            line_len(buffer@, start as int) == (match line_len(buffer@, k as int) {
                Some(n) => Some((n + (k - start)) as nat),
                None => None,
            }),
        decreases buffer.len() - k,
    {
        if buffer[k] == 13 && buffer[k + 1] == 10 {
            return Some(k - start);
        }
        k = k + 1;
    }
    None
}

/// The text that a run of bytes holds, if it is valid UTF-8.
fn text_string(buffer: &[u8]) -> (r: Option<String>)
    ensures
        match text_of(buffer@) {
            Some(t) => r matches Some(s) && s@ == t,
            None => r is None,
        },
{
    match utf8_text(buffer) {
        Some(t) => Some(t.to_owned()),
        None => None,
    }
}

/// Whether the unfinished header line from `from` may still become a
/// number.
fn number_may_follow(buffer: &[u8], from: usize) -> (r: bool)
    requires
        from <= buffer@.len(),
    ensures
        r == may_be_number(buffer@, from as int),
{
    let mut end = buffer.len();
    if end > from && buffer[end - 1] == 13 {
        end = end - 1;
    }
    let mut j: usize = from;
    while j < end
        invariant
            from <= j <= end,
            end as int == unfinished_end(buffer@, from as int),
            forall|k: int|
                from <= k < j ==> (48u8 <= #[trigger] buffer@[k] <= 57u8) || (k == from && (
                buffer@[k] == 43u8 || buffer@[k] == 45u8)),
        decreases end - j,
    {
        let c = buffer[j];
        if !((48 <= c && c <= 57) || (j == from && (c == 43 || c == 45))) {
            return false;
        }
        j = j + 1;
    }
    true
}

/// The integer that a header line holds.
fn parse_int(buffer: &[u8]) -> (r: Option<i64>)
    ensures
        match line_int(buffer@) {
            Some(v) => r == Some(v as i64),
            None => r is None,
        },
{
    match utf8_text(buffer) {
        Some(t) => parse_i64(t),
        None => None,
    }
}

/// The value that starts at `start`, with the number of bytes it takes.
fn parse_message(buffer: &[u8], start: usize) -> (r: Result<(Value, usize), DecodeError>)
    ensures
        match parse_at(buffer@, start as int) {
            Ok((m, used)) => r matches Ok((v, u)) && v@ == m && u == used && start + u
                <= buffer@.len(),
            Err(e) => r == Err::<(Value, usize), DecodeError>(e),
        },
    decreases remaining(buffer@, start as int), 0int, 0int,
{
    if start >= buffer.len() {
        return Err(DecodeError::Incomplete);
    }
    let tag = buffer[start];
    if tag != 43 && tag != 42 && tag != 36 {
        return Err(DecodeError::Malformed);
    }
    let n = match read_until_crlf(buffer, start + 1) {
        None => {
            if tag != 43 && !number_may_follow(buffer, start + 1) {
                return Err(DecodeError::Malformed);
            }
            return Err(DecodeError::Incomplete);
        },
        Some(n) => n,
    };
    let line = &buffer[start + 1..start + 1 + n];
    let body = start + n + 3;
    if tag == 43 {
        return match text_string(line) {
            None => Err(DecodeError::Malformed),
            Some(s) => Ok((Value::SimpleString(s), n + 3)),
        };
    }
    let k = match parse_int(line) {
        None => return Err(DecodeError::Malformed),
        Some(k) => k,
    };
    if k < 0 {
        if tag == 36 && k == -1 {
            return Ok((Value::Nil, n + 3));
        }
        return Err(DecodeError::Malformed);
    }
    if tag == 42 {
        match parse_items(buffer, body, k as u64) {
            Ok((items, used)) => {
                let ghost ms = models(items@);
                let v = Value::Array(items);
                proof {
                    if let ValueModel::Array(s) = v@ {
                        assert(s =~= ms);
                    }
                }
                Ok((v, n + 3 + used))
            },
            Err(e) => Err(e),
        }
    } else {
        let rest = buffer.len() - body;
        if k as u64 >= rest as u64 {
            return Err(DecodeError::Incomplete);
        }
        let end = body + k as usize;
        if buffer[end] != 13 {
            return Err(DecodeError::Malformed);
        }
        if end + 1 == buffer.len() {
            return Err(DecodeError::Incomplete);
        }
        if buffer[end + 1] != 10 {
            return Err(DecodeError::Malformed);
        }
        match text_string(&buffer[body..end]) {
            None => Err(DecodeError::Malformed),
            Some(s) => Ok((Value::BulkString(s), n + 3 + k as usize + 2)),
        }
    }
}

/// `count` values one after another from `start`, with the number of bytes
/// they take together.
fn parse_items(buffer: &[u8], start: usize, count: u64) -> (r: Result<(Vec<Value>, usize), DecodeError>)
    requires
        start <= buffer@.len(),
    ensures
        match items_at(buffer@, start as int, count as nat) {
            Ok((ms, used)) => r matches Ok((items, u)) && models(items@) == ms && u == used && start
                + u <= buffer@.len(),
            Err(e) => r == Err::<(Vec<Value>, usize), DecodeError>(e),
        },
    decreases remaining(buffer@, start as int), 1int, count as int,
{
    let total = buffer.len();
    let mut items: Vec<Value> = Vec::new();
    let mut pos: usize = start;
    let mut k: u64 = 0;
    while k < count
        invariant
            start <= pos <= total,
            total == buffer@.len(),
            k <= count,
            glue(models(items@), (pos - start) as nat, items_at(buffer@, pos as int, (count - k) as nat))
                == items_at(buffer@, start as int, count as nat),
        decreases count - k,
    {
        let ghost old_items = models(items@);
        let ghost old_pos = pos;
        let res = parse_message(buffer, pos);
        match res {
            Err(e) => {
                return Err(e);
            },
            Ok((v, used)) => {
                assert(pos + used <= buffer@.len()) by {
                    match parse_at(buffer@, pos as int) {
                        Ok((m, u)) => {
                            assert(res matches Ok((v2, u2)) && u2 == u);
                        },
                        Err(e) => {
                            assert(res is Err);
                        },
                    }
                }
                items.push(v);
                pos = pos + used;
                k = k + 1;
                proof {
                    assert(models(items@) =~= old_items + seq![v@]);
                    let later = items_at(buffer@, pos as int, (count - k) as nat);
                    match later {
                        Ok((rest, more)) => {
                            assert(old_items + (seq![v@] + rest) =~= models(items@) + rest);
                        },
                        Err(e) => {},
                    }
                }
            },
        }
    }
    proof {
        assert(models(items@) + seq![] =~= models(items@));
    }
    Ok((items, pos - start))
}

impl Value {
    /// A copy of this value, item by item.
    pub fn deep_copy(&self) -> (r: Value)
        ensures
            r@ == self@,
        decreases self@,
    {
        match self {
            Value::SimpleString(s) => Value::SimpleString(s.clone()),
            Value::BulkString(s) => Value::BulkString(s.clone()),
            Value::Nil => Value::Nil,
            Value::Array(items) => {
                let mut copies: Vec<Value> = Vec::new();
                let mut i: usize = 0;
                while i < items.len()
                    invariant
                        i <= items@.len(),
                        *self == Value::Array(*items),
                        copies@.len() == i,
                        forall|j: int| 0 <= j < i ==> #[trigger] copies@[j]@ == items@[j]@,
                    decreases items.len() - i,
                {
                    proof {
                        let ghost children = self@->Array_0;
                        assert(children[i as int] == items@[i as int]@);
                        assert(decreases_to!(self@ => children));
                        assert(decreases_to!(self@ => items@[i as int]@));
                    }
                    copies.push(items[i].deep_copy());
                    i = i + 1;
                }
                let r = Value::Array(copies);
                proof {
                    if let ValueModel::Array(a) = r@ {
                        if let ValueModel::Array(b) = self@ {
                            assert forall|j: int| 0 <= j < a.len() implies a[j] == b[j] by {
                                assert(copies@[j]@ == items@[j]@);
                            }
                            assert(a =~= b);
                        }
                    }
                }
                r
            },
        }
    }

    /// The bytes that this value is sent as; only scalar values are sent.
    pub fn serialize(self) -> (r: Result<String, EncodeError>)
        ensures
            match encoding(self@) {
                Some(bytes) => r matches Ok(s) && encode_utf8(s@) == bytes,
                None => r == Err::<String, EncodeError>(EncodeError::UnsupportedReply),
            },
    {
        let mut out: Vec<u8> = Vec::new();
        match self {
            Value::SimpleString(s) => {
                out.push(43);
                push_bytes(&mut out, s.as_str().as_bytes());
                out.push(13);
                out.push(10);
                proof {
                    lemma_ascii_bytes(seq![43u8]);
                    lemma_ascii_bytes(crlf());
                    encode_utf8_valid_utf8(s@);
                    valid_utf8_concat(seq![43u8], encode_utf8(s@));
                    valid_utf8_concat(seq![43u8] + encode_utf8(s@), crlf());
                    assert(out@ =~= seq![43u8] + encode_utf8(s@) + crlf());
                }
            },
            Value::BulkString(s) => {
                let payload = s.as_str().as_bytes();
                out.push(36);
                push_decimal(&mut out, payload.len());
                out.push(13);
                out.push(10);
                push_bytes(&mut out, payload);
                out.push(13);
                out.push(10);
                proof {
                    let e = encode_utf8(s@);
                    let d = decimal_bytes(e.len());
                    lemma_decimal_bytes(e.len());
                    lemma_ascii_bytes(seq![36u8]);
                    lemma_ascii_bytes(d);
                    lemma_ascii_bytes(crlf());
                    encode_utf8_valid_utf8(s@);
                    valid_utf8_concat(seq![36u8], d);
                    valid_utf8_concat(seq![36u8] + d, crlf());
                    valid_utf8_concat(seq![36u8] + d + crlf(), e);
                    valid_utf8_concat(seq![36u8] + d + crlf() + e, crlf());
                    assert(out@ =~= seq![36u8] + d + crlf() + e + crlf());
                }
            },
            Value::Nil => {
                out.push(36);
                out.push(45);
                out.push(49);
                out.push(13);
                out.push(10);
                proof {
                    lemma_ascii_bytes(out@);
                }
            },
            Value::Array(_) => {
                return Err(EncodeError::UnsupportedReply);
            },
        }
        match utf8_text(out.as_slice()) {
            Some(t) => {
                proof {
                    decode_utf8_encode_utf8(out@);
                }
                Ok(t.to_owned())
            },
            None => Err(EncodeError::UnsupportedReply),
        }
    }
}

/// A line whose bytes hold no carriage return before `j` ends at `j`.
proof fn lemma_line_len_at(b: Seq<u8>, i: int, j: int)
    requires
        0 <= i <= j,
        j + 1 < b.len(),
        b[j] == 13u8,
        b[j + 1] == 10u8,
        forall|k: int| i <= k < j ==> b[k] != 13u8,
    ensures
        line_len(b, i) == Some((j - i) as nat),
    decreases j - i,
{
    if i < j {
        lemma_line_len_at(b, i + 1, j);
    }
}

/// Every byte of a UTF-8 encoded character other than a carriage return
/// differs from a carriage return's byte.
proof fn lemma_scalar_no_cr(c: char)
    requires
        c != '\r',
    ensures
        forall|k: int|
            0 <= k < encode_scalar(c as u32).len() ==> #[trigger] encode_scalar(c as u32)[k] != 13u8,
{
    let v = c as u32;
    let h = encode_scalar(v);
    if has_width_1_encoding(v) {
        assert(v <= 0x7f ==> (v & 0x7f) == v) by (bit_vector);
        assert(v != 13) by {
            char_u32_cast(c, v);
        }
    } else {
        let a = leading_byte_width_2(v);
        let b = leading_byte_width_3(v);
        let d = leading_byte_width_4(v);
        let e = last_continuation_byte(v);
        let f = second_last_continuation_byte(v);
        let g = third_last_continuation_byte(v);
        assert(a >= 0x80) by (bit_vector)
            requires
                a == 0xC0u8 | ((v >> 6u32) & 0x1Fu32) as u8,
        ;
        assert(b >= 0x80) by (bit_vector)
            requires
                b == 0xE0u8 | ((v >> 12u32) & 0x0Fu32) as u8,
        ;
        assert(d >= 0x80) by (bit_vector)
            requires
                d == 0xF0u8 | ((v >> 18u32) & 0x7u32) as u8,
        ;
        assert(e >= 0x80) by (bit_vector)
            requires
                e == 0x80u8 | (v & 0x3Fu32) as u8,
        ;
        assert(f >= 0x80) by (bit_vector)
            requires
                f == 0x80u8 | ((v >> 6u32) & 0x3Fu32) as u8,
        ;
        assert(g >= 0x80) by (bit_vector)
            requires
                g == 0x80u8 | ((v >> 12u32) & 0x3Fu32) as u8,
        ;
    }
}

/// Text without a carriage return encodes to bytes without one.
proof fn lemma_text_no_cr(s: Seq<char>)
    requires
        forall|i: int| 0 <= i < s.len() ==> #[trigger] s[i] != '\r',
    ensures
        forall|k: int| 0 <= k < encode_utf8(s).len() ==> #[trigger] encode_utf8(s)[k] != 13u8,
    decreases s.len(),
{
    if s.len() > 0 {
        let h = encode_scalar(s[0] as u32);
        let t = encode_utf8(s.drop_first());
        lemma_scalar_no_cr(s[0]);
        lemma_text_no_cr(s.drop_first());
        assert(encode_utf8(s) == h + t);
        assert forall|k: int| 0 <= k < encode_utf8(s).len() implies encode_utf8(s)[k] != 13u8 by {
            if k < h.len() {
                assert(encode_utf8(s)[k] == h[k]);
            } else {
                assert(encode_utf8(s)[k] == t[k - h.len()]);
            }
        }
    }
}

/// Encoding a simple string whose text holds no carriage return and
/// decoding the bytes gives the string back, and the decoder takes every
/// byte.
pub proof fn lemma_simple_round_trip(s: Seq<char>)
    requires
        forall|i: int| 0 <= i < s.len() ==> #[trigger] s[i] != '\r',
    ensures
        encoding(ValueModel::Simple(s)) matches Some(b) && parse_at(b, 0) == Ok::<
            (ValueModel, nat),
            DecodeError,
        >((ValueModel::Simple(s), b.len())),
{
    let e = encode_utf8(s);
    let b = seq![43u8] + e + crlf();
    lemma_text_no_cr(s);
    assert forall|k: int| 1 <= k < e.len() + 1 implies b[k] != 13u8 by {
        assert(b[k] == e[k - 1]);
    }
    lemma_line_len_at(b, 1, e.len() + 1int);
    assert(b.subrange(1, 1 + e.len() as int) =~= e);
    encode_utf8_valid_utf8(s);
    encode_utf8_decode_utf8(s);
}

/// Encoding nil and decoding the bytes gives nil back, and the decoder
/// takes every byte.
pub proof fn lemma_nil_round_trip()
    ensures
        encoding(ValueModel::Nil) matches Some(b) && parse_at(b, 0) == Ok::<
            (ValueModel, nat),
            DecodeError,
        >((ValueModel::Nil, 5)),
{
    let b = seq![36u8, 45u8, 49u8, 13u8, 10u8];
    lemma_line_len_at(b, 1, 3);
    let line = b.subrange(1, 3);
    assert(line =~= seq![45u8, 49u8]);
    lemma_ascii_bytes(line);
    let t = ascii_text(line);
    assert(t[0] == '-');
    assert(t.drop_first() =~= seq!['1']);
    assert(seq!['1'].drop_last() =~= Seq::<char>::empty());
    assert(all_digits(seq!['1']));
    assert(seq!['1'].last() == '1');
    assert(digits_value(Seq::<char>::empty()) == 0);
    assert('1' as nat - '0' as nat == 1);
    assert(digits_value(seq!['1']) == 1);
    assert(signed_decimal(t) == Some(-1int));
}

/// A header line at `i + 1` holding the decimal digits of `n` ends after
/// them and reads as `n`.
proof fn lemma_header_at(b: Seq<u8>, i: int, n: nat)
    requires
        0 <= i,
        n <= i64::MAX,
        i + 3 + decimal_bytes(n).len() <= b.len(),
        b.subrange(i + 1, i + 3 + decimal_bytes(n).len()) == decimal_bytes(n) + crlf(),
    ensures
        line_len(b, i + 1) == Some(decimal_bytes(n).len()),
        line_int(b.subrange(i + 1, i + 1 + decimal_bytes(n).len())) == Some(n as int),
{
    let d = decimal_bytes(n);
    let h = d + crlf();
    lemma_decimal_bytes(n);
    assert forall|k: int| 0 <= k < h.len() implies b[i + 1 + k] == #[trigger] h[k] by {
        assert(b.subrange(i + 1, i + 3 + d.len())[k] == b[i + 1 + k]);
    }
    assert forall|k: int| i + 1 <= k < i + 1 + d.len() implies b[k] != 13u8 by {
        assert(h[k - i - 1] == d[k - i - 1]);
    }
    assert(h[d.len() as int] == 13u8);
    assert(h[d.len() + 1int] == 10u8);
    lemma_line_len_at(b, i + 1, i + 1 + d.len());
    assert(b.subrange(i + 1, i + 1 + d.len()) =~= d);
    lemma_ascii_bytes(d);
    let t = ascii_text(d);
    assert(t[0] != '-' && t[0] != '+');
    assert(signed_decimal(t) == Some(n as int));
}

/// A bulk string holding `s` at offset `i` decodes to `s` there, whatever
/// follows it.
pub proof fn lemma_bulk_at(b: Seq<u8>, i: int, s: Seq<char>)
    requires
        0 <= i,
        encode_utf8(s).len() <= i64::MAX,
        i + bulk_bytes(s).len() <= b.len(),
        b.subrange(i, i + bulk_bytes(s).len()) == bulk_bytes(s),
    ensures
        parse_at(b, i) == Ok::<(ValueModel, nat), DecodeError>(
            (ValueModel::Bulk(s), bulk_bytes(s).len()),
        ),
{
    let e = encode_utf8(s);
    let d = decimal_bytes(e.len());
    let enc = bulk_bytes(s);
    assert forall|k: int| 0 <= k < enc.len() implies b[i + k] == #[trigger] enc[k] by {
        assert(b.subrange(i, i + enc.len())[k] == b[i + k]);
    }
    assert(b[i] == enc[0]);
    assert(enc.subrange(1, 3int + d.len()) =~= d + crlf());
    assert(b.subrange(i + 1, i + 3 + d.len()) =~= enc.subrange(1, 3int + d.len()));
    lemma_header_at(b, i, e.len());
    let body: int = i + d.len() + 3int;
    assert(enc.subrange(d.len() + 3int, d.len() + 3int + e.len()) =~= e);
    assert(b.subrange(body, body + e.len()) =~= enc.subrange(d.len() + 3int, d.len() + 3int + e.len()));
    assert(b[body + e.len()] == enc[d.len() + 3int + e.len()]);
    assert(b[body + e.len() + 1] == enc[d.len() + 4int + e.len()]);
    encode_utf8_valid_utf8(s);
    encode_utf8_decode_utf8(s);
}

/// Encoding a bulk string and decoding the bytes gives the text back, and
/// the decoder takes every byte.
pub proof fn lemma_bulk_round_trip(s: Seq<char>)
    requires
        encode_utf8(s).len() <= i64::MAX,
    ensures
        encoding(ValueModel::Bulk(s)) matches Some(b) && parse_at(b, 0) == Ok::<
            (ValueModel, nat),
            DecodeError,
        >((ValueModel::Bulk(s), b.len())),
{
    let b = bulk_bytes(s);
    assert(b.subrange(0, b.len() as int) =~= b);
    lemma_bulk_at(b, 0, s);
}

/// Bulk strings holding `words` one after another from offset `i` decode
/// to those words there, whatever follows them.
proof fn lemma_bulks_at(b: Seq<u8>, i: int, words: Seq<Seq<char>>)
    requires
        0 <= i,
        forall|j: int| 0 <= j < words.len() ==> encode_utf8(#[trigger] words[j]).len() <= i64::MAX,
        i + bulks_bytes(words).len() <= b.len(),
        b.subrange(i, i + bulks_bytes(words).len()) == bulks_bytes(words),
    ensures
        items_at(b, i, words.len()) == Ok::<(Seq<ValueModel>, nat), DecodeError>(
            (bulk_models(words), bulks_bytes(words).len()),
        ),
    decreases words.len(),
{
    let all = bulks_bytes(words);
    if words.len() == 0 {
        assert(bulk_models(words) =~= seq![]);
    } else {
        let first = bulk_bytes(words[0]);
        let rest = words.drop_first();
        let more = bulks_bytes(rest);
        assert(all == first + more);
        assert forall|k: int| 0 <= k < all.len() implies b[i + k] == #[trigger] all[k] by {
            assert(b.subrange(i, i + all.len())[k] == b[i + k]);
        }
        assert(b.subrange(i, i + first.len()) =~= first);
        lemma_bulk_at(b, i, words[0]);
        assert(all.subrange(first.len() as int, all.len() as int) =~= more);
        assert(b.subrange(i + first.len(), i + first.len() + more.len()) =~= all.subrange(
            first.len() as int,
            all.len() as int,
        ));
        assert forall|j: int| 0 <= j < rest.len() implies encode_utf8(#[trigger] rest[j]).len()
            <= i64::MAX by {
            assert(rest[j] == words[j + 1]);
        }
        lemma_bulks_at(b, i + first.len(), rest);
        assert(seq![ValueModel::Bulk(words[0])] + bulk_models(rest) =~= bulk_models(words));
    }
}

/// Encoding a request, an array of bulk strings, and decoding the bytes
/// gives the words back, and the decoder takes every byte.
pub proof fn lemma_request_round_trip(words: Seq<Seq<char>>)
    requires
        words.len() <= i64::MAX,
        forall|j: int| 0 <= j < words.len() ==> encode_utf8(#[trigger] words[j]).len() <= i64::MAX,
    ensures
        parse_at(request_bytes(words), 0) == Ok::<(ValueModel, nat), DecodeError>(
            (ValueModel::Array(bulk_models(words)), request_bytes(words).len()),
        ),
{
    let b = request_bytes(words);
    let d = decimal_bytes(words.len());
    let items = bulks_bytes(words);
    assert(b.subrange(1, 3int + d.len()) =~= d + crlf());
    lemma_header_at(b, 0, words.len());
    let body: int = d.len() + 3int;
    assert(b.subrange(body, body + items.len()) =~= items);
    lemma_bulks_at(b, body, words);
}

/// Decodes the message at the start of `buffer`, with the number of bytes
/// it takes.
pub fn decode(buffer: &[u8]) -> (r: Result<(Value, usize), DecodeError>)
    ensures
        match parse_at(buffer@, 0) {
            Ok((m, used)) => r matches Ok((v, u)) && v@ == m && u == used && u <= buffer@.len(),
            Err(e) => r == Err::<(Value, usize), DecodeError>(e),
        },
{
    parse_message(buffer, 0)
}

} // verus!
