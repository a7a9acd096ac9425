//! The RESP message model and decoder.
use vstd::prelude::*;

use crate::wire::find_crlf;
use crate::wire::is_int_token;
use crate::wire::token_value;
use crate::wire::all_digits;
use crate::wire::is_ascii_digit;
use crate::wire::dec_value;
use crate::wire::lemma_dec_value_push;
use crate::wire::lemma_dec_value_mono;
use crate::wire::is_prefix;
use crate::wire::encode_msg;
use crate::wire::encode_elems;
use crate::wire::msg_wf;
use crate::wire::is_tag;
use crate::wire::int_repr;
use crate::wire::crlf;
use crate::wire::lemma_encode_head;
use crate::wire::lemma_header_line;
use crate::wire::lemma_prefix_parts;
use crate::wire::lemma_int_repr;
use crate::wire::lemma_encode_elems_decompose;
use crate::wire::lemma_encode_elems_extend;
use crate::wire::lemma_encode_elems_all;
use crate::wire::lemma_trunc_split;
use crate::wire::lemma_truncated_header;
use crate::wire::TAG_SIMPLE;
use crate::wire::TAG_ERROR;
use crate::wire::TAG_INTEGER;
use crate::wire::TAG_BULK;
use crate::wire::TAG_ARRAY;

verus! {

/// A decoded RESP message.
#[derive(Debug, PartialEq)]
pub enum RespMessage {
    SimpleString(Vec<u8>),
    Error(Vec<u8>),
    Integer(i64),
    BulkString(Vec<u8>),
    Array(Vec<RespMessage>),
    Null,
}

/// The mathematical model of a RESP message: sequences in place of vectors.
pub enum MessageModel {
    SimpleString(Seq<u8>),
    Error(Seq<u8>),
    Integer(int),
    BulkString(Seq<u8>),
    Array(Seq<MessageModel>),
    Null,
}

impl DeepView for RespMessage {
    type V = MessageModel;

    open spec fn deep_view(&self) -> MessageModel
        decreases self,
    {
        match self {
            RespMessage::SimpleString(s) => MessageModel::SimpleString(s@),
            RespMessage::Error(s) => MessageModel::Error(s@),
            RespMessage::Integer(n) => MessageModel::Integer(*n as int),
            RespMessage::BulkString(b) => MessageModel::BulkString(b@),
            RespMessage::Array(_) => MessageModel::Array(models_of(self->Array_0@)),
            RespMessage::Null => MessageModel::Null,
        }
    }
}

/// The models of a sequence of messages, element by element.
pub open spec fn models_of(v: Seq<RespMessage>) -> Seq<MessageModel>
    decreases v,
{
    if v.len() == 0 {
        Seq::<MessageModel>::empty()
    } else {
        models_of(v.subrange(0, v.len() - 1)).push(v[v.len() - 1].deep_view())
    }
}

/// Why a decode failed. Every error ends the in-flight decode; nothing is
/// retried internally.
#[derive(Debug, PartialEq, Eq, Clone, Copy)]
pub enum DecodeError {
    /// The leading byte matched none of the known type tags.
    UnknownTypeTag,
    /// An integer header line was not a valid signed 64-bit decimal.
    InvalidInteger,
    /// A bulk-string length line was not a valid length.
    InvalidBulkLength,
    /// An array length line was not a valid count.
    InvalidArrayLength,
    /// The source ended before a complete header, payload or terminator.
    UnexpectedEof,
}

/// A decoder over a buffered byte source: a cursor over the bytes read so
/// far. Each `parse_next` call consumes exactly one complete message.
pub struct RespParser {
    input: Vec<u8>,
    pos: usize,
}

/// What decoding a simple-string body from position `c` of `src` yields:
/// the header line verbatim, or an end-of-stream failure, with the cursor
/// ending at `c2`.
pub open spec fn simple_string_outcome(
    src: Seq<u8>,
    c: int,
    c2: int,
    r: Result<RespMessage, DecodeError>,
) -> bool {
    let f = find_crlf(src, c);
    match r {
        Ok(m) => {
            &&& f >= 0
            &&& m.deep_view() == MessageModel::SimpleString(src.subrange(c, f))
            &&& c2 == f + 2
        },
        Err(e) => {
            &&& e == DecodeError::UnexpectedEof
            &&& f == -1
            &&& c2 == c
        },
    }
}

/// What decoding an error-string body yields: as a simple string, wrapped
/// as a server-reported error.
pub open spec fn error_outcome(
    src: Seq<u8>,
    c: int,
    c2: int,
    r: Result<RespMessage, DecodeError>,
) -> bool {
    let f = find_crlf(src, c);
    match r {
        Ok(m) => {
            &&& f >= 0
            &&& m.deep_view() == MessageModel::Error(src.subrange(c, f))
            &&& c2 == f + 2
        },
        Err(e) => {
            &&& e == DecodeError::UnexpectedEof
            &&& f == -1
            &&& c2 == c
        },
    }
}

/// What decoding an integer body yields: the header line as a signed
/// 64-bit decimal, an invalid-integer failure on any other line, or an
/// end-of-stream failure when no line remains.
pub open spec fn integer_outcome(
    src: Seq<u8>,
    c: int,
    c2: int,
    r: Result<RespMessage, DecodeError>,
) -> bool {
    let f = find_crlf(src, c);
    let line = src.subrange(c, f);
    match r {
        Ok(m) => {
            &&& f >= 0
            &&& is_int_token(line)
            &&& m.deep_view() == MessageModel::Integer(token_value(line))
            &&& c2 == f + 2
        },
        Err(e) => {
            ||| {
                &&& e == DecodeError::UnexpectedEof
                &&& f == -1
                &&& c2 == c
            }
            ||| {
                &&& e == DecodeError::InvalidInteger
                &&& f >= 0
                &&& !is_int_token(line)
                &&& c2 == f + 2
            }
        },
    }
}

/// What decoding a bulk-string body yields: a length line, then exactly
/// that many payload bytes and two trailing bytes; -1 is the null
/// sentinel, any other negative length is invalid, and a source too short
/// for the payload or the trailer is an end-of-stream failure.
pub open spec fn bulk_string_outcome(
    src: Seq<u8>,
    c: int,
    c2: int,
    r: Result<RespMessage, DecodeError>,
) -> bool {
    let f = find_crlf(src, c);
    let line = src.subrange(c, f);
    let l = token_value(line);
    match r {
        Ok(m) => {
            &&& f >= 0
            &&& is_int_token(line)
            &&& {
                ||| {
                    &&& l == -1
                    &&& m.deep_view() == MessageModel::Null
                    &&& c2 == f + 2
                }
                ||| {
                    &&& l >= 0
                    &&& f + 2 + l + 2 <= src.len()
                    &&& m.deep_view() == MessageModel::BulkString(src.subrange(f + 2, f + 2 + l))
                    &&& c2 == f + 2 + l + 2
                }
            }
        },
        Err(e) => {
            ||| {
                &&& e == DecodeError::UnexpectedEof
                &&& f == -1
                &&& c2 == c
            }
            ||| {
                &&& e == DecodeError::InvalidBulkLength
                &&& f >= 0
                &&& !is_int_token(line)
                &&& c2 == f + 2
            }
            ||| {
                &&& e == DecodeError::InvalidBulkLength
                &&& f >= 0
                &&& is_int_token(line)
                &&& l < -1
                &&& c2 == f + 2
            }
            ||| {
                &&& e == DecodeError::UnexpectedEof
                &&& f >= 0
                &&& is_int_token(line)
                &&& l >= 0
                &&& f + 2 + l + 2 > src.len()
                &&& c2 == f + 2
            }
        },
    }
}

/// What the count line of an array determines: an end-of-stream failure
/// with nothing consumed when no line remains, and an invalid-length
/// failure on a line that is not a non-negative count. What follows a
/// valid count is the element decoding, stated separately.
pub open spec fn array_header_outcome(
    src: Seq<u8>,
    c: int,
    c2: int,
    r: Result<RespMessage, DecodeError>,
) -> bool {
    let f = find_crlf(src, c);
    let line = src.subrange(c, f);
    let l = token_value(line);
    &&& (f == -1 ==> r == Err::<RespMessage, DecodeError>(DecodeError::UnexpectedEof) && c2 == c)
    &&& (f >= 0 && !is_int_token(line) ==> r == Err::<RespMessage, DecodeError>(
        DecodeError::InvalidArrayLength,
    ) && c2 == f + 2)
    &&& (f >= 0 && is_int_token(line) && l < 0 ==> r == Err::<RespMessage, DecodeError>(
        DecodeError::InvalidArrayLength,
    ) && c2 == f + 2)
}

/// What follows a valid array count: whenever the bytes behind the count
/// line open with the encodings of that many well-formed messages, the
/// array of exactly those messages comes back and exactly their encodings
/// are consumed; whenever the source ends inside those encodings, decoding
/// fails with an end-of-stream error.
pub open spec fn array_elems_outcome(
    src: Seq<u8>,
    c: int,
    c2: int,
    r: Result<RespMessage, DecodeError>,
) -> bool {
    let f = find_crlf(src, c);
    let line = src.subrange(c, f);
    let l = token_value(line);
    &&& (f >= 0 && is_int_token(line) && l >= 0 ==> forall|elems: Seq<MessageModel>|
        elems.len() == l && (forall|i: int| 0 <= i < elems.len() ==> msg_wf(#[trigger] elems[i]))
            && #[trigger] is_prefix(encode_elems(elems), src.subrange(f + 2, src.len() as int))
            ==> (r matches Ok(m) && m.deep_view() == MessageModel::Array(elems) && c2 == f + 2
            + encode_elems(elems).len()))
    &&& (f >= 0 && is_int_token(line) && l >= 0 ==> forall|elems: Seq<MessageModel>|
        elems.len() == l && (forall|i: int| 0 <= i < elems.len() ==> msg_wf(#[trigger] elems[i]))
            && #[trigger] is_prefix(src.subrange(f + 2, src.len() as int), encode_elems(elems))
            && src.len() - (f + 2) < encode_elems(elems).len() ==> r == Err::<
            RespMessage,
            DecodeError,
        >(DecodeError::UnexpectedEof))
}

impl RespParser {
    /// The bytes of the source.
    pub closed spec fn src(&self) -> Seq<u8> {
        self.input@
    }

    /// The read position: everything before it has been consumed.
    pub closed spec fn cursor(&self) -> int {
        self.pos as int
    }

    /// The cursor never passes the end of the source.
    pub open spec fn wf(&self) -> bool {
        self.cursor() <= self.src().len()
    }

    /// The bytes not yet consumed.
    pub open spec fn remaining(&self) -> Seq<u8> {
        self.src().subrange(self.cursor(), self.src().len() as int)
    }

    /// Wraps a byte source; nothing is consumed yet.
    pub fn new(input: Vec<u8>) -> (p: RespParser)
        ensures
            p.wf(),
            p.src() == input@,
            p.cursor() == 0,
    {
        RespParser { input, pos: 0 }
    }

    /// How many bytes have been consumed so far.
    pub fn position(&self) -> (p: usize)
        ensures
            p as int == self.cursor(),
    {
        self.pos
    }

    /// Reads one CRLF-terminated line, the terminator stripped: the bytes up
    /// to the first CR LF pair. Fails without consuming anything when no
    /// terminator remains.
    fn read_line(&mut self) -> (r: Result<Vec<u8>, DecodeError>)
        requires
            old(self).wf(),
        ensures
            final(self).wf(),
            final(self).src() == old(self).src(),
            match r {
                Ok(line) => {
                    let f = find_crlf(old(self).src(), old(self).cursor());
                    &&& old(self).cursor() <= f
                    &&& f + 2 <= old(self).src().len()
                    &&& line@ == old(self).src().subrange(old(self).cursor(), f)
                    &&& final(self).cursor() == f + 2
                },
                Err(e) => {
                    &&& e == DecodeError::UnexpectedEof
                    &&& find_crlf(old(self).src(), old(self).cursor()) == -1
                    &&& final(self).cursor() == old(self).cursor()
                },
            },
    {
        let len = self.input.len();
        let start = self.pos;
        let mut i = start;
        loop
            invariant
                *self == *old(self),
                self.wf(),
                start == self.pos,
                start <= i <= len,
                len == self.input.len(),
                find_crlf(self.input@, start as int) == find_crlf(self.input@, i as int),
            decreases len - i,
        {
            if len - i < 2 {
                proof {
                    assert(find_crlf(self.input@, i as int) == -1);
                }
                return Err(DecodeError::UnexpectedEof);
            }
            if self.input[i] == 13 && self.input[i + 1] == 10 {
                proof {
                    assert(find_crlf(self.input@, i as int) == i);
                }
                let mut line: Vec<u8> = Vec::new();
                let mut j = start;
                while j < i
                    invariant
                        *self == *old(self),
                        start <= j <= i,
                        i + 2 <= self.input.len(),
                        line@ == self.input@.subrange(start as int, j as int),
                    decreases i - j,
                {
                    proof {
                        assert(self.input@.subrange(start as int, j + 1) =~= self.input@.subrange(
                            start as int,
                            j as int,
                        ).push(self.input@[j as int]));
                    }
                    let b = self.input[j];
                    line.push(b);
                    j = j + 1;
                }
                self.pos = i + 2;
                return Ok(line);
            }
            proof {
                assert(find_crlf(self.input@, i as int) == find_crlf(self.input@, i + 1));
            }
            i = i + 1;
        }
    }

    /// Decodes the body of a simple string: the rest of the header line,
    /// taken verbatim.
    pub fn parse_simple_string(&mut self) -> (r: Result<RespMessage, DecodeError>)
        requires
            old(self).wf(),
        ensures
            final(self).wf(),
            final(self).src() == old(self).src(),
            old(self).cursor() <= final(self).cursor(),
            simple_string_outcome(old(self).src(), old(self).cursor(), final(self).cursor(), r),
    {
        match self.read_line() {
            Ok(line) => Ok(RespMessage::SimpleString(line)),
            Err(e) => Err(e),
        }
    }

    /// Decodes the body of a server-reported error string: the rest of the
    /// header line, taken verbatim.
    pub fn parse_error(&mut self) -> (r: Result<RespMessage, DecodeError>)
        requires
            old(self).wf(),
        ensures
            final(self).wf(),
            final(self).src() == old(self).src(),
            old(self).cursor() <= final(self).cursor(),
            error_outcome(old(self).src(), old(self).cursor(), final(self).cursor(), r),
    {
        match self.read_line() {
            Ok(line) => Ok(RespMessage::Error(line)),
            Err(e) => Err(e),
        }
    }

    /// Decodes the body of an integer: the header line parsed as a signed
    /// 64-bit decimal.
    pub fn parse_integer(&mut self) -> (r: Result<RespMessage, DecodeError>)
        requires
            old(self).wf(),
        ensures
            final(self).wf(),
            final(self).src() == old(self).src(),
            old(self).cursor() <= final(self).cursor(),
            integer_outcome(old(self).src(), old(self).cursor(), final(self).cursor(), r),
    {
        let line = match self.read_line() {
            Ok(line) => line,
            Err(e) => {
                return Err(e);
            },
        };
        match parse_i64(&line) {
            Some(v) => Ok(RespMessage::Integer(v)),
            None => Err(DecodeError::InvalidInteger),
        }
    }

    /// Decodes the body of a bulk string: a signed length line, then that
    /// many payload bytes, then two trailing bytes, expected to be CR LF,
    /// consumed but not stored. A length of -1 is the null sentinel; any
    /// other negative length is rejected.
    pub fn parse_bulk_string(&mut self) -> (r: Result<RespMessage, DecodeError>)
        requires
            old(self).wf(),
        ensures
            final(self).wf(),
            final(self).src() == old(self).src(),
            old(self).cursor() <= final(self).cursor(),
            bulk_string_outcome(old(self).src(), old(self).cursor(), final(self).cursor(), r),
    {
        let line = match self.read_line() {
            Ok(line) => line,
            Err(e) => {
                return Err(e);
            },
        };
        let l = match parse_i64(&line) {
            Some(v) => v,
            None => {
                return Err(DecodeError::InvalidBulkLength);
            },
        };
        if l == -1 {
            return Ok(RespMessage::Null);
        }
        if l < 0 {
            return Err(DecodeError::InvalidBulkLength);
        }
        let len = self.input.len();
        let rem = (len - self.pos) as u64;
        if l as u64 > rem || rem - (l as u64) < 2 {
            return Err(DecodeError::UnexpectedEof);
        }
        let l_us = l as usize;
        let start = self.pos;
        let mut payload: Vec<u8> = Vec::new();
        let mut j: usize = 0;
        while j < l_us
            invariant
                j <= l_us,
                start == self.pos,
                start + l_us + 2 <= self.input.len(),
                payload@ == self.input@.subrange(start as int, start + j),
            decreases l_us - j,
        {
            proof {
                assert(self.input@.subrange(start as int, start + j + 1) =~= self.input@.subrange(
                    start as int,
                    start + j,
                ).push(self.input@[start + j]));
            }
            let b = self.input[start + j];
            payload.push(b);
            j = j + 1;
        }
        self.pos = start + l_us + 2;
        Ok(RespMessage::BulkString(payload))
    }

    /// Decodes the body of an array: a signed count line, then that many
    /// messages decoded left to right; the first failure aborts the whole
    /// array and no partial array is returned. A negative count is rejected.
    pub fn parse_array(&mut self) -> (r: Result<RespMessage, DecodeError>)
        requires
            old(self).wf(),
        ensures
            final(self).wf(),
            final(self).src() == old(self).src(),
            old(self).cursor() <= final(self).cursor(),
            array_header_outcome(old(self).src(), old(self).cursor(), final(self).cursor(), r),
            array_elems_outcome(old(self).src(), old(self).cursor(), final(self).cursor(), r),
        decreases old(self).src().len() - old(self).cursor(),
    {
        let ghost pre = *old(self);
        let line = match self.read_line() {
            Ok(line) => line,
            Err(e) => {
                return Err(e);
            },
        };
        let count = match parse_i64(&line) {
            Some(v) => v,
            None => {
                return Err(DecodeError::InvalidArrayLength);
            },
        };
        if count < 0 {
            return Err(DecodeError::InvalidArrayLength);
        }
        let ghost f = find_crlf(pre.src(), pre.cursor());
        let ghost line0 = pre.src().subrange(pre.cursor(), f);
        let ghost hdr_end = self.cursor();
        let ghost tail = pre.src().subrange(hdr_end, pre.src().len() as int);
        let mut items: Vec<RespMessage> = Vec::new();
        let mut k: i64 = 0;
        proof {
            assert forall|elems: Seq<MessageModel>|
                elems.len() == count as int && (forall|i: int|
                    0 <= i < elems.len() ==> msg_wf(#[trigger] elems[i])) && #[trigger] is_prefix(
                    encode_elems(elems),
                    tail,
                ) implies models_of(items@) == elems.subrange(0, 0) && self.cursor() == hdr_end
                + encode_elems(elems.subrange(0, 0)).len() by {
                assert(elems.subrange(0, 0) =~= Seq::<MessageModel>::empty());
                assert(models_of(items@) =~= elems.subrange(0, 0));
                assert(encode_elems(elems.subrange(0, 0)).len() == 0);
            };
            assert forall|elems: Seq<MessageModel>|
                elems.len() == count as int && (forall|i: int|
                    0 <= i < elems.len() ==> msg_wf(#[trigger] elems[i])) && #[trigger] is_prefix(
                    tail,
                    encode_elems(elems),
                ) && tail.len() < encode_elems(elems).len() implies self.cursor() == hdr_end
                + encode_elems(elems.subrange(0, 0)).len() by {
                assert(elems.subrange(0, 0) =~= Seq::<MessageModel>::empty());
                assert(encode_elems(elems.subrange(0, 0)).len() == 0);
            };
        }
        while k < count
            invariant
                pre == *old(self),
                self.wf(),
                self.src() == pre.src(),
                pre.wf(),
                0 <= k <= count,
                0 <= count,
                f == find_crlf(pre.src(), pre.cursor()),
                line0 == pre.src().subrange(pre.cursor(), f),
                is_int_token(line0),
                token_value(line0) == count as int,
                pre.cursor() <= f,
                hdr_end == f + 2,
                hdr_end <= self.cursor() <= self.src().len(),
                items@.len() == k as int,
                tail == pre.src().subrange(hdr_end, pre.src().len() as int),
                forall|elems: Seq<MessageModel>|
                    elems.len() == count as int && (forall|i: int|
                        0 <= i < elems.len() ==> msg_wf(#[trigger] elems[i]))
                        && #[trigger] is_prefix(encode_elems(elems), tail) ==> models_of(items@)
                        == elems.subrange(0, k as int) && self.cursor() == hdr_end + encode_elems(
                        elems.subrange(0, k as int),
                    ).len(),
                forall|elems: Seq<MessageModel>|
                    elems.len() == count as int && (forall|i: int|
                        0 <= i < elems.len() ==> msg_wf(#[trigger] elems[i]))
                        && #[trigger] is_prefix(tail, encode_elems(elems)) && tail.len()
                        < encode_elems(elems).len() ==> self.cursor() == hdr_end + encode_elems(
                        elems.subrange(0, k as int),
                    ).len(),
            decreases count - k,
        {
            let ghost cur = *self;
            let ghost kk = k as int;
            let ghost items0 = items@;
            let m = match self.parse_next() {
                Ok(m) => m,
                Err(e) => {
                    proof {
                        assert forall|elems: Seq<MessageModel>|
                            elems.len() == count as int && (forall|i: int|
                                0 <= i < elems.len() ==> msg_wf(#[trigger] elems[i]))
                                && #[trigger] is_prefix(encode_elems(elems), tail) implies false by {
                            lemma_step_facts(pre.src(), hdr_end, elems, kk, cur);
                            assert(msg_wf(elems[kk]));
                            assert(is_prefix(encode_msg(elems[kk]), cur.remaining()));
                        };
                        assert forall|elems: Seq<MessageModel>|
                            elems.len() == count as int && (forall|i: int|
                                0 <= i < elems.len() ==> msg_wf(#[trigger] elems[i]))
                                && #[trigger] is_prefix(tail, encode_elems(elems)) && tail.len()
                                < encode_elems(elems).len() implies e == DecodeError::UnexpectedEof by {
                            lemma_trunc_step_facts(pre.src(), hdr_end, elems, kk, cur);
                            assert(msg_wf(elems[kk]));
                            if pre.src().len() - cur.cursor() >= encode_msg(elems[kk]).len() {
                                assert(is_prefix(encode_msg(elems[kk]), cur.remaining()));
                                assert(false);
                            } else {
                                assert(is_prefix(cur.remaining(), encode_msg(elems[kk])));
                                assert(cur.remaining().len() < encode_msg(elems[kk]).len());
                            }
                        };
                    }
                    return Err(e);
                },
            };
            items.push(m);
            k = k + 1;
            proof {
                assert forall|elems: Seq<MessageModel>|
                    elems.len() == count as int && (forall|i: int|
                        0 <= i < elems.len() ==> msg_wf(#[trigger] elems[i]))
                        && #[trigger] is_prefix(encode_elems(elems), tail) implies models_of(items@)
                    == elems.subrange(0, kk + 1) && self.cursor() == hdr_end + encode_elems(
                    elems.subrange(0, kk + 1),
                ).len() by {
                    lemma_step_facts(pre.src(), hdr_end, elems, kk, cur);
                    assert(msg_wf(elems[kk]));
                    assert(is_prefix(encode_msg(elems[kk]), cur.remaining()));
                    assert(m.deep_view() == elems[kk]);
                    lemma_encode_elems_extend(elems, kk);
                    assert(items@ == items0.push(m));
                    assert(items@.subrange(0, items@.len() - 1) =~= items0);
                    assert(models_of(items@) == models_of(items0).push(m.deep_view()));
                    assert(elems.subrange(0, kk).push(elems[kk]) =~= elems.subrange(0, kk + 1));
                };
                assert forall|elems: Seq<MessageModel>|
                    elems.len() == count as int && (forall|i: int|
                        0 <= i < elems.len() ==> msg_wf(#[trigger] elems[i]))
                        && #[trigger] is_prefix(tail, encode_elems(elems)) && tail.len()
                        < encode_elems(elems).len() implies self.cursor() == hdr_end + encode_elems(
                    elems.subrange(0, kk + 1),
                ).len() by {
                    lemma_trunc_step_facts(pre.src(), hdr_end, elems, kk, cur);
                    assert(msg_wf(elems[kk]));
                    if pre.src().len() - cur.cursor() >= encode_msg(elems[kk]).len() {
                        assert(is_prefix(encode_msg(elems[kk]), cur.remaining()));
                        lemma_encode_elems_extend(elems, kk);
                    } else {
                        assert(is_prefix(cur.remaining(), encode_msg(elems[kk])));
                        assert(cur.remaining().len() < encode_msg(elems[kk]).len());
                        assert(false);
                    }
                };
            }
        }
        proof {
            assert forall|elems: Seq<MessageModel>|
                elems.len() == count as int && (forall|i: int|
                    0 <= i < elems.len() ==> msg_wf(#[trigger] elems[i])) && #[trigger] is_prefix(
                    encode_elems(elems),
                    tail,
                ) implies models_of(items@) == elems && self.cursor() == hdr_end + encode_elems(
                elems,
            ).len() by {
                assert(elems.subrange(0, k as int) =~= elems);
                lemma_encode_elems_all(elems);
            };
            assert forall|elems: Seq<MessageModel>|
                elems.len() == count as int && (forall|i: int|
                    0 <= i < elems.len() ==> msg_wf(#[trigger] elems[i])) && #[trigger] is_prefix(
                    tail,
                    encode_elems(elems),
                ) && tail.len() < encode_elems(elems).len() implies false by {
                assert(elems.subrange(0, k as int) =~= elems);
                lemma_encode_elems_all(elems);
                assert(self.cursor() == hdr_end + encode_elems(elems).len());
                assert(self.cursor() <= pre.src().len());
                assert(tail.len() == pre.src().len() - hdr_end);
            };
        }
        Ok(RespMessage::Array(items))
    }

    /// Decodes exactly one complete message: one leading tag byte, then the
    /// body of that kind, recursing for array elements. Whenever the
    /// remaining input opens with the canonical encoding of a well-formed
    /// message, that message is returned and exactly its encoding is
    /// consumed; an empty source fails with an end-of-stream error and an
    /// unknown tag byte fails after consuming only that byte.
    pub fn parse_next(&mut self) -> (r: Result<RespMessage, DecodeError>)
        requires
            old(self).wf(),
        ensures
            final(self).wf(),
            final(self).src() == old(self).src(),
            old(self).cursor() <= final(self).cursor(),
            old(self).remaining().len() == 0 ==> r == Err::<RespMessage, DecodeError>(
                DecodeError::UnexpectedEof,
            ) && final(self).cursor() == old(self).cursor(),
            old(self).remaining().len() > 0 && !is_tag(old(self).remaining()[0]) ==> r == Err::<
                RespMessage,
                DecodeError,
            >(DecodeError::UnknownTypeTag) && final(self).cursor() == old(self).cursor() + 1,
            forall|mv: MessageModel|
                msg_wf(mv) && #[trigger] is_prefix(encode_msg(mv), old(self).remaining()) ==> (
                r matches Ok(m) && m.deep_view() == mv && final(self).cursor() == old(self).cursor()
                    + encode_msg(mv).len()),
            forall|mv: MessageModel|
                msg_wf(mv) && #[trigger] is_prefix(old(self).remaining(), encode_msg(mv)) && old(
                    self,
                ).remaining().len() < encode_msg(mv).len() ==> r == Err::<RespMessage, DecodeError>(
                    DecodeError::UnexpectedEof,
                ),
            ({
                let rem = old(self).remaining();
                let src = old(self).src();
                let c1 = old(self).cursor() + 1;
                let c2 = final(self).cursor();
                &&& (rem.len() > 0 && rem[0] == TAG_SIMPLE ==> simple_string_outcome(src, c1, c2, r))
                &&& (rem.len() > 0 && rem[0] == TAG_ERROR ==> error_outcome(src, c1, c2, r))
                &&& (rem.len() > 0 && rem[0] == TAG_INTEGER ==> integer_outcome(src, c1, c2, r))
                &&& (rem.len() > 0 && rem[0] == TAG_BULK ==> bulk_string_outcome(src, c1, c2, r))
                &&& (rem.len() > 0 && rem[0] == TAG_ARRAY ==> array_header_outcome(src, c1, c2, r)
                    && array_elems_outcome(src, c1, c2, r))
            }),
        decreases old(self).src().len() - old(self).cursor(),
    {
        let ghost pre = *old(self);
        if self.pos == self.input.len() {
            proof {
                assert(pre.remaining().len() == 0);
                assert forall|mv: MessageModel|
                    msg_wf(mv) && #[trigger] is_prefix(encode_msg(mv), pre.remaining())
                    implies false by {
                    lemma_encode_head(mv);
                };
            }
            return Err(DecodeError::UnexpectedEof);
        }
        let tag = self.input[self.pos];
        self.pos = self.pos + 1;
        let ghost mid = *self;
        proof {
            assert(pre.remaining()[0] == pre.src()[pre.cursor()]);
            assert(tag == pre.remaining()[0]);
        }
        let r = if tag == 43 {
            self.parse_simple_string()
        } else if tag == 45 {
            self.parse_error()
        } else if tag == 58 {
            self.parse_integer()
        } else if tag == 36 {
            self.parse_bulk_string()
        } else if tag == 42 {
            self.parse_array()
        } else {
            proof {
                assert(!is_tag(tag));
                assert forall|mv: MessageModel|
                    msg_wf(mv) && #[trigger] is_prefix(encode_msg(mv), pre.remaining())
                    implies false by {
                    lemma_encode_head(mv);
                    assert(encode_msg(mv) == pre.remaining().subrange(
                        0,
                        encode_msg(mv).len() as int,
                    ));
                    assert(encode_msg(mv)[0] == pre.remaining()[0]);
                };
                assert forall|mv: MessageModel|
                    msg_wf(mv) && #[trigger] is_prefix(pre.remaining(), encode_msg(mv))
                        && pre.remaining().len() < encode_msg(mv).len() implies false by {
                    lemma_encode_head(mv);
                    let enc = encode_msg(mv);
                    assert(pre.remaining() == enc.subrange(0, pre.remaining().len() as int));
                    assert(pre.remaining()[0] == enc.subrange(
                        0,
                        pre.remaining().len() as int,
                    )[0]);
                    assert(pre.remaining()[0] == enc[0]);
                };
            }
            return Err(DecodeError::UnknownTypeTag);
        };
        proof {
            assert forall|mv: MessageModel|
                msg_wf(mv) && #[trigger] is_prefix(encode_msg(mv), pre.remaining()) implies (
            r matches Ok(m) && m.deep_view() == mv && self.cursor() == pre.cursor() + encode_msg(
                mv,
            ).len()) by {
                lemma_encode_head(mv);
                let enc = encode_msg(mv);
                assert(enc == pre.remaining().subrange(0, enc.len() as int));
                assert(enc[0] == pre.remaining()[0]);
                match mv {
                    MessageModel::SimpleString(t) => {
                        assert(enc =~= seq![TAG_SIMPLE].add(t.add(crlf())));
                        lemma_prefix_parts(seq![TAG_SIMPLE], t.add(crlf()), pre.src(), pre.cursor());
                        lemma_header_line(pre.src(), mid.cursor(), t);
                        assert(enc.len() == 3 + t.len());
                    },
                    MessageModel::Error(t) => {
                        assert(enc =~= seq![TAG_ERROR].add(t.add(crlf())));
                        lemma_prefix_parts(seq![TAG_ERROR], t.add(crlf()), pre.src(), pre.cursor());
                        lemma_header_line(pre.src(), mid.cursor(), t);
                        assert(enc.len() == 3 + t.len());
                    },
                    MessageModel::Integer(n) => {
                        lemma_int_repr(n);
                        assert(enc =~= seq![TAG_INTEGER].add(int_repr(n).add(crlf())));
                        lemma_prefix_parts(
                            seq![TAG_INTEGER],
                            int_repr(n).add(crlf()),
                            pre.src(),
                            pre.cursor(),
                        );
                        lemma_header_line(pre.src(), mid.cursor(), int_repr(n));
                        assert(enc.len() == 3 + int_repr(n).len());
                    },
                    MessageModel::Null => {
                        lemma_int_repr(-1);
                        assert(enc =~= seq![TAG_BULK].add(int_repr(-1).add(crlf())));
                        lemma_prefix_parts(
                            seq![TAG_BULK],
                            int_repr(-1).add(crlf()),
                            pre.src(),
                            pre.cursor(),
                        );
                        lemma_header_line(pre.src(), mid.cursor(), int_repr(-1));
                        assert(enc.len() == 3 + int_repr(-1).len());
                    },
                    MessageModel::BulkString(b) => {
                        let rep = int_repr(b.len() as int);
                        lemma_int_repr(b.len() as int);
                        assert(enc =~= seq![TAG_BULK].add(
                            rep.add(crlf()).add(b.add(crlf())),
                        ));
                        lemma_prefix_parts(
                            seq![TAG_BULK],
                            rep.add(crlf()).add(b.add(crlf())),
                            pre.src(),
                            pre.cursor(),
                        );
                        lemma_prefix_parts(rep.add(crlf()), b.add(crlf()), pre.src(), mid.cursor());
                        lemma_header_line(pre.src(), mid.cursor(), rep);
                        let fpos = mid.cursor() + rep.len() as int;
                        lemma_prefix_parts(b, crlf(), pre.src(), fpos + 2);
                        assert(token_value(rep) == b.len());
                        assert(pre.src().subrange(fpos + 2, fpos + 2 + b.len() as int) == b);
                        assert(enc.len() == 5 + rep.len() + b.len());
                    },
                    MessageModel::Array(elems) => {
                        let rep = int_repr(elems.len() as int);
                        lemma_int_repr(elems.len() as int);
                        assert(enc =~= seq![TAG_ARRAY].add(
                            rep.add(crlf()).add(encode_elems(elems)),
                        ));
                        lemma_prefix_parts(
                            seq![TAG_ARRAY],
                            rep.add(crlf()).add(encode_elems(elems)),
                            pre.src(),
                            pre.cursor(),
                        );
                        lemma_prefix_parts(
                            rep.add(crlf()),
                            encode_elems(elems),
                            pre.src(),
                            mid.cursor(),
                        );
                        lemma_header_line(pre.src(), mid.cursor(), rep);
                        let fpos = mid.cursor() + rep.len() as int;
                        assert(token_value(rep) == elems.len());
                        assert(is_prefix(
                            encode_elems(elems),
                            pre.src().subrange(fpos + 2, pre.src().len() as int),
                        ));
                        assert(enc.len() == 3 + rep.len() + encode_elems(elems).len());
                    },
                }
            };
            assert forall|mv: MessageModel|
                msg_wf(mv) && #[trigger] is_prefix(pre.remaining(), encode_msg(mv))
                    && pre.remaining().len() < encode_msg(mv).len() implies r == Err::<
                RespMessage,
                DecodeError,
            >(DecodeError::UnexpectedEof) by {
                lemma_encode_head(mv);
                let enc = encode_msg(mv);
                let src = pre.src();
                let slen = src.len() as int;
                assert(pre.remaining() == enc.subrange(0, pre.remaining().len() as int));
                assert(pre.remaining()[0] == enc.subrange(0, pre.remaining().len() as int)[0]);
                assert(pre.remaining()[0] == enc[0]);
                match mv {
                    MessageModel::SimpleString(t) => {
                        assert(enc =~= seq![TAG_SIMPLE].add(t.add(crlf())));
                        lemma_trunc_split(seq![TAG_SIMPLE], t.add(crlf()), src, pre.cursor());
                        lemma_truncated_header(src, mid.cursor(), t);
                    },
                    MessageModel::Error(t) => {
                        assert(enc =~= seq![TAG_ERROR].add(t.add(crlf())));
                        lemma_trunc_split(seq![TAG_ERROR], t.add(crlf()), src, pre.cursor());
                        lemma_truncated_header(src, mid.cursor(), t);
                    },
                    MessageModel::Integer(n) => {
                        lemma_int_repr(n);
                        assert(enc =~= seq![TAG_INTEGER].add(int_repr(n).add(crlf())));
                        lemma_trunc_split(
                            seq![TAG_INTEGER],
                            int_repr(n).add(crlf()),
                            src,
                            pre.cursor(),
                        );
                        lemma_truncated_header(src, mid.cursor(), int_repr(n));
                    },
                    MessageModel::Null => {
                        lemma_int_repr(-1);
                        assert(enc =~= seq![TAG_BULK].add(int_repr(-1).add(crlf())));
                        lemma_trunc_split(
                            seq![TAG_BULK],
                            int_repr(-1).add(crlf()),
                            src,
                            pre.cursor(),
                        );
                        lemma_truncated_header(src, mid.cursor(), int_repr(-1));
                    },
                    MessageModel::BulkString(b) => {
                        let rep = int_repr(b.len() as int);
                        lemma_int_repr(b.len() as int);
                        assert(enc =~= seq![TAG_BULK].add(rep.add(crlf()).add(b.add(crlf()))));
                        lemma_trunc_split(
                            seq![TAG_BULK],
                            rep.add(crlf()).add(b.add(crlf())),
                            src,
                            pre.cursor(),
                        );
                        lemma_trunc_split(rep.add(crlf()), b.add(crlf()), src, mid.cursor());
                        if slen - mid.cursor() < rep.len() + 2 {
                            assert(is_prefix(src.subrange(mid.cursor(), slen), rep.add(crlf())));
                            lemma_truncated_header(src, mid.cursor(), rep);
                        } else {
                            assert(is_prefix(rep.add(crlf()), src.subrange(mid.cursor(), slen)));
                            lemma_header_line(src, mid.cursor(), rep);
                            assert(token_value(rep) == b.len());
                            assert(enc.len() == 5 + rep.len() + b.len());
                        }
                    },
                    MessageModel::Array(elems) => {
                        let rep = int_repr(elems.len() as int);
                        lemma_int_repr(elems.len() as int);
                        assert(enc =~= seq![TAG_ARRAY].add(
                            rep.add(crlf()).add(encode_elems(elems)),
                        ));
                        lemma_trunc_split(
                            seq![TAG_ARRAY],
                            rep.add(crlf()).add(encode_elems(elems)),
                            src,
                            pre.cursor(),
                        );
                        lemma_trunc_split(rep.add(crlf()), encode_elems(elems), src, mid.cursor());
                        if slen - mid.cursor() < rep.len() + 2 {
                            assert(is_prefix(src.subrange(mid.cursor(), slen), rep.add(crlf())));
                            lemma_truncated_header(src, mid.cursor(), rep);
                        } else {
                            assert(is_prefix(rep.add(crlf()), src.subrange(mid.cursor(), slen)));
                            lemma_header_line(src, mid.cursor(), rep);
                            assert(token_value(rep) == elems.len());
                            assert(enc.len() == 3 + rep.len() + encode_elems(elems).len());
                            assert(is_prefix(
                                src.subrange(mid.cursor() + rep.len() + 2, slen),
                                encode_elems(elems),
                            ));
                            assert(slen - (mid.cursor() + rep.len() + 2) < encode_elems(
                                elems,
                            ).len());
                        }
                    },
                }
            };
        }
        r
    }
}

/// At an element boundary inside a truncated array body: either the next
/// element is there in full and its encoding opens the bytes still to be
/// decoded, or the source ends inside the next element's encoding.
proof fn lemma_trunc_step_facts(
    src: Seq<u8>,
    hdr_end: int,
    elems: Seq<MessageModel>,
    kk: int,
    cur: RespParser,
)
    requires
        0 <= hdr_end <= src.len(),
        0 <= kk < elems.len(),
        is_prefix(src.subrange(hdr_end, src.len() as int), encode_elems(elems)),
        src.len() - hdr_end < encode_elems(elems).len(),
        cur.wf(),
        cur.src() == src,
        cur.cursor() == hdr_end + encode_elems(elems.subrange(0, kk)).len(),
    ensures
        src.len() - cur.cursor() >= encode_msg(elems[kk]).len() ==> is_prefix(
            encode_msg(elems[kk]),
            cur.remaining(),
        ),
        src.len() - cur.cursor() < encode_msg(elems[kk]).len() ==> is_prefix(
            cur.remaining(),
            encode_msg(elems[kk]),
        ) && cur.remaining().len() < encode_msg(elems[kk]).len(),
{
    lemma_encode_elems_decompose(elems, kk);
    let a = encode_elems(elems.subrange(0, kk));
    let b = encode_msg(elems[kk]);
    let c = encode_elems(elems.subrange(kk + 1, elems.len() as int));
    assert(encode_elems(elems) =~= a.add(b.add(c)));
    lemma_trunc_split(a, b.add(c), src, hdr_end);
    assert(is_prefix(src.subrange(cur.cursor(), src.len() as int), b.add(c)));
    lemma_trunc_split(b, c, src, cur.cursor());
    assert(cur.remaining() == src.subrange(cur.cursor(), src.len() as int));
}

/// At an element boundary inside an array body: the next element's encoding
/// opens the bytes still to be decoded.
proof fn lemma_step_facts(
    src: Seq<u8>,
    hdr_end: int,
    elems: Seq<MessageModel>,
    kk: int,
    cur: RespParser,
)
    requires
        0 <= hdr_end <= src.len(),
        0 <= kk < elems.len(),
        is_prefix(encode_elems(elems), src.subrange(hdr_end, src.len() as int)),
        cur.src() == src,
        cur.cursor() == hdr_end + encode_elems(elems.subrange(0, kk)).len(),
    ensures
        is_prefix(encode_msg(elems[kk]), cur.remaining()),
{
    lemma_encode_elems_decompose(elems, kk);
    let a = encode_elems(elems.subrange(0, kk));
    let b = encode_msg(elems[kk]);
    let c = encode_elems(elems.subrange(kk + 1, elems.len() as int));
    assert(encode_elems(elems) =~= a.add(b.add(c)));
    lemma_prefix_parts(a, b.add(c), src, hdr_end);
    lemma_prefix_parts(b, c, src, hdr_end + a.len());
    assert(cur.remaining() == src.subrange(hdr_end + a.len(), src.len() as int));
}


/// Parses a header line as a signed 64-bit decimal integer: an optional
/// single sign, then at least one digit, nothing else, and a value that
/// fits. Exactly the lines `is_int_token` admits are accepted.
fn parse_i64(line: &Vec<u8>) -> (r: Option<i64>)
    ensures
        match r {
            Some(v) => is_int_token(line@) && v as int == token_value(line@),
            None => !is_int_token(line@),
        },
{
    let n = line.len();
    if n == 0 {
        return None;
    }
    let b0 = line[0];
    let mut idx: usize = 0;
    let mut neg = false;
    if b0 == 43 {
        idx = 1;
    } else if b0 == 45 {
        idx = 1;
        neg = true;
    }
    proof {
        assert(crate::wire::token_digits(line@) =~= line@.subrange(idx as int, n as int));
        assert(crate::wire::token_negative(line@) == neg);
    }
    if idx == n {
        proof {
            assert(crate::wire::token_digits(line@).len() == 0);
        }
        return None;
    }
    let limit: u64 = if neg {
        9223372036854775808
    } else {
        9223372036854775807
    };
    let ghost digits = line@.subrange(idx as int, n as int);
    let mut acc: u64 = 0;
    let mut j = idx;
    while j < n
        invariant
            idx <= j <= n,
            n == line@.len(),
            idx <= 1,
            digits == line@.subrange(idx as int, n as int),
            crate::wire::token_digits(line@) == digits,
            crate::wire::token_negative(line@) == neg,
            digits.len() > 0,
            limit == if neg { 9223372036854775808u64 } else { 9223372036854775807u64 },
            all_digits(line@.subrange(idx as int, j as int)),
            acc as int == dec_value(line@.subrange(idx as int, j as int)),
            acc <= limit,
        decreases n - j,
    {
        let b = line[j];
        let ghost sofar = line@.subrange(idx as int, j as int);
        if b < 48 || b > 57 {
            proof {
                assert(digits[j - idx] == b);
                assert(!is_ascii_digit(digits[j - idx]));
                assert(!all_digits(digits));
            }
            return None;
        }
        let d = (b - 48) as u64;
        if acc > (limit - d) / 10 {
            proof {
                assert(acc * 10 + d > limit) by (nonlinear_arith)
                    requires
                        acc > (limit - d) / 10,
                        d <= limit,
                ;
                if all_digits(digits) {
                    lemma_dec_value_mono(digits, j + 1 - idx);
                    assert(digits.subrange(0, j + 1 - idx) =~= line@.subrange(
                        idx as int,
                        j + 1,
                    ));
                    assert(line@.subrange(idx as int, j + 1) =~= sofar.push(b));
                    lemma_dec_value_push(sofar, b);
                    assert(dec_value(digits) >= acc * 10 + d);
                    assert(dec_value(digits) > limit);
                    if neg {
                        assert(token_value(line@) == -dec_value(digits));
                        assert(token_value(line@) < i64::MIN);
                    } else {
                        assert(token_value(line@) > i64::MAX);
                    }
                }
                assert(!is_int_token(line@));
            }
            return None;
        }
        proof {
            assert(acc * 10 + d <= limit) by (nonlinear_arith)
                requires
                    acc <= (limit - d) / 10,
                    d <= limit,
            ;
            lemma_dec_value_push(sofar, b);
            assert(line@.subrange(idx as int, j + 1) =~= sofar.push(b));
        }
        acc = acc * 10 + d;
        j = j + 1;
    }
    proof {
        assert(line@.subrange(idx as int, j as int) == digits);
        assert(all_digits(digits));
        assert(acc as int == dec_value(digits));
        assert(is_int_token(line@));
    }
    if neg {
        if acc == 0 {
            Some(0)
        } else {
            Some((-((acc - 1) as i64)) - 1)
        }
    } else {
        Some(acc as i64)
    }
}

} // verus!
