//! The values of the protocol, how they are written on the wire and how
//! they are read back.

use crate::decimal::{
    format_i64, format_u64, int_digits, lemma_nat_digits, lemma_parse_int_digits, nat_digits,
    parse_i64, parse_int,
};
use crate::resp::constant::{
    crlf, ARRAY_FLAG, BULK_STR_FLAG, CR, INTEGER_FLAG, LF, SIMPLE_ERR_FLAG, SIMPLE_STR_FLAG,
};
use crate::resp::data::{lemma_models_of, model_of, models_of, Model, RespData};
use crate::resp::data_type::{data_type_of, DataType};
use crate::resp::error::ProtocolError;
use crate::resp::token::{
    crlf_at, declared_len, find_line_end, lemma_line_len, lemma_line_len_is,
    lemma_line_len_stable, line_len, payload_of, read_len, read_payload, tokens_of,
};
use crate::text::string_from_utf8;
use vstd::prelude::*;
use vstd::slice::{slice_subrange, slice_to_vec};
use vstd::std_specs::vec::axiom_vec_index_decreases;
use vstd::utf8::{
    decode_utf8, encode_utf8, encode_utf8_decode_utf8, encode_utf8_valid_utf8, valid_utf8,
};

verus! {

/// The name under which the protocol speaks of a value.
pub type ProtocolValue = RespData;

/// The bytes of a value on the wire.
pub open spec fn encoding(v: Model) -> Seq<u8>
    decreases v,
{
    match v {
        Model::SimpleString(t) => seq![SIMPLE_STR_FLAG] + encode_utf8(t) + crlf(),
        Model::Error(t) => seq![SIMPLE_ERR_FLAG] + encode_utf8(t) + crlf(),
        Model::Integer(n) => seq![INTEGER_FLAG] + int_digits(n as int) + crlf(),
        Model::BulkString(None) => seq![BULK_STR_FLAG] + int_digits(-1) + crlf(),
        Model::BulkString(Some(p)) => seq![BULK_STR_FLAG] + int_digits(p.len() as int) + crlf() + p
            + crlf(),
        Model::Array(items) => seq![ARRAY_FLAG] + int_digits(items.len() as int) + crlf()
            + encoding_all(items),
    }
}

/// The bytes of values on the wire, one behind the other.
pub open spec fn encoding_all(items: Seq<Model>) -> Seq<u8>
    decreases items,
{
    if items.len() == 0 {
        Seq::empty()
    } else {
        encoding(items[0]) + encoding_all(items.drop_first())
    }
}

/// The kind of value that a frame with this first byte holds.
pub open spec fn kind_of(flag: u8) -> Result<DataType, ProtocolError> {
    match data_type_of(flag as char) {
        Ok(kind) => Ok(kind),
        Err(_) => Err(ProtocolError::UnknownType(flag)),
    }
}

/// The value at the head of the buffer, and the number of bytes that it
/// takes there.
///
/// The value is read from the tokens at the head of the buffer. The first
/// byte of the first token says of which kind the value is; the rest of
/// that token is the value itself or its declared size. A bulk string of
/// declared size `k` has the next token as its payload: the `k` bytes
/// behind the first line, whatever they are, with the terminator after
/// them. An array of declared size `k` takes the `k` values behind its
/// first line. The size -1 gives the null bulk string, and an array
/// without elements.
///
/// A buffer that ends before the value does gives `Incomplete`. The first
/// fault found, reading from the left, decides.
pub open spec fn decoding(buf: Seq<u8>) -> Result<(Model, nat), ProtocolError>
    decreases buf.len(), 0nat,
    via decoding_decreases
{
    if buf.len() == 0 {
        Err(ProtocolError::Incomplete)
    } else {
        match kind_of(buf[0]) {
            Err(e) => Err(e),
            Ok(kind) => match line_len(buf) {
                None => Err(ProtocolError::Incomplete),
                Some(n) => {
                    let line = buf.take(n as int);
                    let used = n + 2;
                    let rest = buf.skip(used as int);
                    match kind {
                        DataType::SimpleString => if valid_utf8(line.skip(1)) {
                            Ok((Model::SimpleString(decode_utf8(line.skip(1))), used))
                        } else {
                            Err(ProtocolError::InvalidUtf8)
                        },
                        DataType::SimpleError => if valid_utf8(line.skip(1)) {
                            Ok((Model::Error(decode_utf8(line.skip(1))), used))
                        } else {
                            Err(ProtocolError::InvalidUtf8)
                        },
                        DataType::Integer => match parse_int(line.skip(1)) {
                            Some(v) => Ok((Model::Integer(v as i64), used)),
                            None => Err(ProtocolError::InvalidInteger),
                        },
                        DataType::BulkString => match declared_len(line) {
                            Err(e) => Err(e),
                            Ok(None) => Ok((Model::BulkString(None), used)),
                            Ok(Some(k)) => match payload_of(rest, k) {
                                Err(e) => Err(e),
                                Ok(None) => Err(ProtocolError::Incomplete),
                                Ok(Some(payload)) => Ok(
                                    (Model::BulkString(Some(payload)), used + k + 2),
                                ),
                            },
                        },
                        DataType::Array => match declared_len(line) {
                            Err(e) => Err(e),
                            Ok(None) => Ok((Model::Array(Seq::empty()), used)),
                            Ok(Some(k)) => match decoding_all(rest, k) {
                                Err(e) => Err(e),
                                Ok((items, m)) => Ok((Model::Array(items), used + m)),
                            },
                        },
                    }
                },
            },
        }
    }
}

/// The first `count` values of the buffer, and the number of bytes that
/// they take there together. Each value is read behind the one before it;
/// no value takes more bytes than the buffer holds (`lemma_decoding_bound`),
/// so the test for that never fails.
pub open spec fn decoding_all(buf: Seq<u8>, count: nat) -> Result<(Seq<Model>, nat), ProtocolError>
    decreases buf.len(), count + 1,
    via decoding_all_decreases
{
    if count == 0 {
        Ok((Seq::empty(), 0))
    } else {
        match decoding(buf) {
            Err(e) => Err(e),
            Ok((first, n)) => if n <= buf.len() {
                match decoding_all(buf.skip(n as int), (count - 1) as nat) {
                    Err(e) => Err(e),
                    Ok((others, m)) => Ok((seq![first] + others, n + m)),
                }
            } else {
                Err(ProtocolError::Incomplete)
            },
        }
    }
}

#[via_fn]
proof fn decoding_decreases(buf: Seq<u8>) {
    lemma_line_len(buf);
}

#[via_fn]
proof fn decoding_all_decreases(buf: Seq<u8>, count: nat) {
}

/// Values that were read, with those that follow them.
pub open spec fn with_earlier(
    done: Seq<Model>,
    used: nat,
    rest: Result<(Seq<Model>, nat), ProtocolError>,
) -> Result<(Seq<Model>, nat), ProtocolError> {
    match rest {
        Ok((others, m)) => Ok((done + others, used + m)),
        Err(e) => Err(e),
    }
}

/// The bytes of values with one more behind them.
pub proof fn lemma_encoding_all_push(items: Seq<Model>, last: Model)
    ensures
        encoding_all(items.push(last)) == encoding_all(items) + encoding(last),
    decreases items.len(),
{
    let all = items.push(last);
    if items.len() == 0 {
        assert(all.drop_first() =~= Seq::<Model>::empty());
        assert(encoding_all(all.drop_first()) =~= Seq::<u8>::empty());
        assert(encoding_all(all) =~= encoding(last));
        assert(encoding_all(items) + encoding(last) =~= encoding(last));
    } else {
        lemma_encoding_all_push(items.drop_first(), last);
        assert(all.drop_first() =~= items.drop_first().push(last));
        assert(encoding(items[0]) + (encoding_all(items.drop_first()) + encoding(last))
            =~= (encoding(items[0]) + encoding_all(items.drop_first())) + encoding(last));
    }
}

impl RespData {
    /// Appends the bytes of the value to `out`.
    pub fn encode_into(&self, out: &mut Vec<u8>)
        ensures
            final(out)@ == old(out)@ + encoding(self@),
        decreases self,
    {
        match self {
            RespData::SimpleString(s) => {
                out.push(SIMPLE_STR_FLAG);
                out.extend_from_slice(s.as_str().as_bytes());
                out.push(CR);
                out.push(LF);
                assert(out@ =~= old(out)@ + encoding(self@));
            },
            RespData::Error(s) => {
                out.push(SIMPLE_ERR_FLAG);
                out.extend_from_slice(s.as_str().as_bytes());
                out.push(CR);
                out.push(LF);
                assert(out@ =~= old(out)@ + encoding(self@));
            },
            RespData::Integer(n) => {
                out.push(INTEGER_FLAG);
                let digits: Vec<u8> = format_i64(*n);
                out.extend_from_slice(digits.as_slice());
                out.push(CR);
                out.push(LF);
                assert(out@ =~= old(out)@ + encoding(self@));
            },
            RespData::BulkString(None) => {
                out.push(BULK_STR_FLAG);
                let digits: Vec<u8> = format_i64(-1);
                out.extend_from_slice(digits.as_slice());
                out.push(CR);
                out.push(LF);
                assert(out@ =~= old(out)@ + encoding(self@));
            },
            RespData::BulkString(Some(p)) => {
                out.push(BULK_STR_FLAG);
                let digits: Vec<u8> = format_u64(p.len() as u64);
                out.extend_from_slice(digits.as_slice());
                out.push(CR);
                out.push(LF);
                out.extend_from_slice(p.as_slice());
                out.push(CR);
                out.push(LF);
                assert(out@ =~= old(out)@ + encoding(self@));
            },
            RespData::Array(items) => {
                out.push(ARRAY_FLAG);
                let digits: Vec<u8> = format_u64(items.len() as u64);
                out.extend_from_slice(digits.as_slice());
                out.push(CR);
                out.push(LF);
                let ghost head = old(out)@ + seq![ARRAY_FLAG] + int_digits(items.len() as int)
                    + crlf();
                let ghost all = models_of(items@);
                proof {
                    lemma_models_of(items@);
                    assert(out@ =~= head);
                    assert(all.take(0) =~= Seq::<Model>::empty());
                    assert(head + encoding_all(all.take(0)) =~= head);
                }
                let mut i: usize = 0;
                while i < items.len()
                    invariant
                        i <= items.len(),
                        all == models_of(items@),
                        all.len() == items.len(),
                        forall|j: int| 0 <= j < items.len() ==> #[trigger] all[j] == model_of(
                            items@[j],
                        ),
                        out@ == head + encoding_all(all.take(i as int)),
                        *self == RespData::Array(*items),
                    decreases items.len() - i,
                {
                    proof {
                        axiom_vec_index_decreases(*items, i as int);
                        assert(decreases_to!(*self => self->Array_0));
                    }
                    items[i].encode_into(out);
                    proof {
                        lemma_encoding_all_push(all.take(i as int), all[i as int]);
                        assert(all.take(i + 1) =~= all.take(i as int).push(all[i as int]));
                        assert(out@ =~= head + encoding_all(all.take(i + 1)));
                    }
                    i += 1;
                }
                proof {
                    assert(all.take(items.len() as int) =~= all);
                    assert(out@ =~= old(out)@ + encoding(self@));
                }
            },
        }
    }

    /// The bytes of the value on the wire.
    pub fn encode(&self) -> (out: Vec<u8>)
        ensures
            out@ == encoding(self@),
    {
        let mut out: Vec<u8> = Vec::new();
        self.encode_into(&mut out);
        assert(out@ =~= encoding(self@));
        out
    }

    /// Reads the value at the head of the buffer. With the value comes the
    /// number of bytes that it takes, so that the caller can go on behind
    /// it. A buffer that gives `Incomplete` is left to be read again when
    /// more bytes have come.
    pub fn decode(buf: &[u8]) -> (r: Result<(RespData, usize), ProtocolError>)
        ensures
            match r {
                Ok((v, used)) => used <= buf.len() && decoding(buf@) == Ok::<
                    (Model, nat),
                    ProtocolError,
                >((v@, used as nat)),
                Err(e) => decoding(buf@) == Err::<(Model, nat), ProtocolError>(e),
            },
    {
        assert(buf@.skip(0) =~= buf@);
        decode_at(buf, 0)
    }
}

/// The text that a line holds behind its first byte.
fn line_text(line: &[u8]) -> (r: Option<String>)
    requires
        line.len() > 0,
    ensures
        r is Some <==> valid_utf8(line@.skip(1)),
        r matches Some(s) ==> s@ == decode_utf8(line@.skip(1)),
{
    let body: Vec<u8> = slice_to_vec(slice_subrange(line, 1, line.len()));
    assert(body@ =~= line@.skip(1));
    let r = string_from_utf8(body);
    proof {
        if r is Some {
            encode_utf8_decode_utf8(r->Some_0@);
        }
    }
    r
}

/// Reads the value that starts at `pos`, and says where the next one starts.
fn decode_at(buf: &[u8], pos: usize) -> (r: Result<(RespData, usize), ProtocolError>)
    requires
        pos <= buf.len(),
    ensures
        match r {
            Ok((v, next)) => pos <= next <= buf.len() && decoding(buf@.skip(pos as int)) == Ok::<
                (Model, nat),
                ProtocolError,
            >((v@, (next - pos) as nat)),
            Err(e) => decoding(buf@.skip(pos as int)) == Err::<(Model, nat), ProtocolError>(e),
        },
    decreases buf.len() - pos,
{
    let n: usize = buf.len();
    let ghost tail = buf@.skip(pos as int);
    if pos == n {
        return Err(ProtocolError::Incomplete);
    }
    let flag: u8 = buf[pos];
    assert(tail[0] == flag);
    let kind: DataType = match DataType::try_from(flag as char) {
        Ok(kind) => kind,
        Err(_) => {
            return Err(ProtocolError::UnknownType(flag));
        },
    };
    let end: usize = match find_line_end(buf, pos) {
        Some(end) => end,
        None => {
            return Err(ProtocolError::Incomplete);
        },
    };
    let line: &[u8] = slice_subrange(buf, pos, end);
    let next: usize = end + 2;
    let ghost rest = tail.skip(end - pos + 2);
    proof {
        lemma_line_len(tail);
        assert(line@ =~= tail.take(end - pos));
        assert(rest =~= buf@.skip(next as int));
    }
    match kind {
        DataType::SimpleString => match line_text(line) {
            Some(s) => Ok((RespData::SimpleString(s), next)),
            None => Err(ProtocolError::InvalidUtf8),
        },
        DataType::SimpleError => match line_text(line) {
            Some(s) => Ok((RespData::Error(s), next)),
            None => Err(ProtocolError::InvalidUtf8),
        },
        DataType::Integer => match parse_i64(slice_subrange(line, 1, line.len())) {
            Some(v) => Ok((RespData::Integer(v), next)),
            None => Err(ProtocolError::InvalidInteger),
        },
        DataType::BulkString => match read_len(line) {
            Err(e) => Err(e),
            Ok(None) => Ok((RespData::BulkString(None), next)),
            Ok(Some(k)) => match read_payload(buf, next, k) {
                Err(e) => Err(e),
                Ok(None) => Err(ProtocolError::Incomplete),
                Ok(Some(stop)) => {
                    let payload: Vec<u8> = slice_to_vec(slice_subrange(buf, next, stop));
                    Ok((RespData::BulkString(Some(payload)), stop + 2))
                },
            },
        },
        DataType::Array => match read_len(line) {
            Err(e) => Err(e),
            Ok(None) => {
                let items: Vec<RespData> = Vec::new();
                assert(models_of(items@) =~= Seq::<Model>::empty());
                Ok((RespData::Array(items), next))
            },
            Ok(Some(k)) => {
                let mut items: Vec<RespData> = Vec::new();
                let mut cur: usize = next;
                let mut i: u64 = 0;
                proof {
                    assert(models_of(items@) =~= Seq::<Model>::empty());
                    lemma_with_earlier_none(decoding_all(rest, k as nat));
                }
                while i < k
                    invariant
                        pos < next <= cur <= n,
                        tail == buf@.skip(pos as int),
                        decoding(tail) == array_of(
                            (next - pos) as nat,
                            decoding_all(rest, k as nat),
                        ),
                        n == buf.len(),
                        i <= k,
                        rest == buf@.skip(next as int),
                        decoding_all(rest, k as nat) == with_earlier(
                            models_of(items@),
                            (cur - next) as nat,
                            decoding_all(buf@.skip(cur as int), (k - i) as nat),
                        ),
                    decreases k - i,
                {
                    let ghost here = buf@.skip(cur as int);
                    let ghost done = models_of(items@);
                    match decode_at(buf, cur) {
                        Err(e) => {
                            return Err(e);
                        },
                        Ok((v, after)) => {
                            proof {
                                assert(here.skip(after - cur) =~= buf@.skip(after as int));
                                let later = decoding_all(
                                    buf@.skip(after as int),
                                    (k - i - 1) as nat,
                                );
                                lemma_with_earlier(
                                    done,
                                    (cur - next) as nat,
                                    v@,
                                    (after - cur) as nat,
                                    later,
                                );
                                assert(items@.push(v).drop_last() =~= items@);
                            }
                            items.push(v);
                            cur = after;
                            i += 1;
                        },
                    }
                }
                proof {
                    assert(models_of(items@) + Seq::<Model>::empty() =~= models_of(items@));
                }
                Ok((RespData::Array(items), cur))
            },
        },
    }
}

/// The array that the elements make, behind a first line of `used` bytes.
pub open spec fn array_of(used: nat, elements: Result<(Seq<Model>, nat), ProtocolError>) -> Result<
    (Model, nat),
    ProtocolError,
> {
    match elements {
        Ok((items, m)) => Ok((Model::Array(items), used + m)),
        Err(e) => Err(e),
    }
}

/// Nothing read yet changes nothing.
pub proof fn lemma_with_earlier_none(rest: Result<(Seq<Model>, nat), ProtocolError>)
    ensures
        with_earlier(Seq::empty(), 0, rest) == rest,
{
    match rest {
        Ok((others, m)) => {
            assert(Seq::<Model>::empty() + others =~= others);
        },
        Err(_) => {},
    }
}

/// Reading one more value moves it from what follows to what was read.
pub proof fn lemma_with_earlier(
    done: Seq<Model>,
    used: nat,
    first: Model,
    n: nat,
    later: Result<(Seq<Model>, nat), ProtocolError>,
)
    ensures
        with_earlier(done, used, with_earlier(seq![first], n, later)) == with_earlier(
            done.push(first),
            used + n,
            later,
        ),
{
    match later {
        Ok((others, m)) => {
            assert(done + (seq![first] + others) =~= done.push(first) + others);
        },
        Err(_) => {},
    }
}

/// Whether the bytes hold no line terminator.
pub open spec fn no_crlf(bytes: Seq<u8>) -> bool {
    forall|j: int| !crlf_at(bytes, j)
}

/// Whether the value can be written and read back: the text of a simple
/// string or an error holds no line terminator, which would end its line
/// early, and the size of a bulk string or an array can be declared in a
/// signed integer of 64 bits.
pub open spec fn writable(v: Model) -> bool
    decreases v,
{
    match v {
        Model::SimpleString(t) => no_crlf(encode_utf8(t)),
        Model::Error(t) => no_crlf(encode_utf8(t)),
        Model::Integer(_) => true,
        Model::BulkString(None) => true,
        Model::BulkString(Some(p)) => p.len() <= i64::MAX,
        Model::Array(items) => items.len() <= i64::MAX && all_writable(items),
    }
}

/// Whether each of the values can be written and read back.
pub open spec fn all_writable(items: Seq<Model>) -> bool
    decreases items,
{
    items.len() == 0 || (writable(items[0]) && all_writable(items.drop_first()))
}

/// A line without terminator inside it ends where the terminator is put
/// behind it.
pub proof fn lemma_line_ends(head: Seq<u8>, tail: Seq<u8>)
    requires
        no_crlf(head),
    ensures
        line_len(head + crlf() + tail) == Some(head.len()),
{
    let whole = head + crlf() + tail;
    assert(crlf_at(whole, head.len() as int));
    assert forall|j: int| 0 <= j < head.len() implies !crlf_at(whole, j) by {
        if j + 1 < head.len() {
            assert(!crlf_at(head, j));
        }
    }
    lemma_line_len_is(whole, head.len() as int);
}

/// The first line of a size or an integer holds no terminator.
pub proof fn lemma_number_line(flag: u8, n: int)
    requires
        flag != CR,
    ensures
        no_crlf(seq![flag] + int_digits(n)),
{
    let digits = int_digits(n);
    let line = seq![flag] + digits;
    if n < 0 {
        lemma_nat_digits((-n) as nat);
    } else {
        lemma_nat_digits(n as nat);
    }
    assert forall|j: int| !crlf_at(line, j) by {
        if 1 <= j && j + 1 < line.len() {
            assert(line[j] == digits[j - 1]);
            if n < 0 && j >= 2 {
                assert(digits[j - 1] == nat_digits((-n) as nat)[j - 2]);
            }
        }
    }
}

/// The first line of a text without terminator holds none either.
pub proof fn lemma_text_line(flag: u8, body: Seq<u8>)
    requires
        flag != CR,
        no_crlf(body),
    ensures
        no_crlf(seq![flag] + body),
{
    let line = seq![flag] + body;
    assert forall|j: int| !crlf_at(line, j) by {
        if 1 <= j && j + 1 < line.len() {
            assert(!crlf_at(body, j - 1));
        }
    }
}

/// What a reader finds at the head of a buffer that starts with a line of
/// text: the line ends where it was ended, and holds the text.
pub proof fn lemma_text_frame(flag: u8, t: Seq<char>, tail: Seq<u8>)
    requires
        flag != CR,
        no_crlf(encode_utf8(t)),
    ensures
        ({
            let line = seq![flag] + encode_utf8(t);
            let whole = line + crlf() + tail;
            &&& whole.len() > 0
            &&& whole[0] == flag
            &&& line_len(whole) == Some(line.len())
            &&& whole.take(line.len() as int) == line
            &&& whole.skip(line.len() as int + 2) == tail
            &&& valid_utf8(line.skip(1))
            &&& decode_utf8(line.skip(1)) == t
        }),
{
    let line = seq![flag] + encode_utf8(t);
    let whole = line + crlf() + tail;
    lemma_text_line(flag, encode_utf8(t));
    lemma_line_ends(line, tail);
    assert(whole.take(line.len() as int) =~= line);
    assert(whole.skip(line.len() as int + 2) =~= tail);
    assert(line.skip(1) =~= encode_utf8(t));
    encode_utf8_valid_utf8(t);
    encode_utf8_decode_utf8(t);
}

/// What a reader finds at the head of a buffer that starts with a line
/// holding a number: the line ends where it was ended, and holds the number.
pub proof fn lemma_number_frame(flag: u8, n: int, tail: Seq<u8>)
    requires
        flag != CR,
        i64::MIN <= n <= i64::MAX,
    ensures
        ({
            let line = seq![flag] + int_digits(n);
            let whole = line + crlf() + tail;
            &&& whole.len() > 0
            &&& whole[0] == flag
            &&& line_len(whole) == Some(line.len())
            &&& whole.take(line.len() as int) == line
            &&& whole.skip(line.len() as int + 2) == tail
            &&& parse_int(line.skip(1)) == Some(n)
        }),
{
    let line = seq![flag] + int_digits(n);
    let whole = line + crlf() + tail;
    lemma_number_line(flag, n);
    lemma_line_ends(line, tail);
    lemma_parse_int_digits(n);
    assert(whole.take(line.len() as int) =~= line);
    assert(whole.skip(line.len() as int + 2) =~= tail);
    assert(line.skip(1) =~= int_digits(n));
}

/// Round trip: the bytes of a value, read back, give the value, and the
/// reader takes exactly those bytes, whatever stands behind them.
pub proof fn lemma_decode_encode(v: Model, tail: Seq<u8>)
    requires
        writable(v),
    ensures
        decoding(encoding(v) + tail) == Ok::<(Model, nat), ProtocolError>(
            (v, encoding(v).len()),
        ),
    decreases v,
{
    let whole = encoding(v) + tail;
    match v {
        Model::SimpleString(t) => {
            lemma_text_frame(SIMPLE_STR_FLAG, t, tail);
            assert(whole =~= seq![SIMPLE_STR_FLAG] + encode_utf8(t) + crlf() + tail);
        },
        Model::Error(t) => {
            lemma_text_frame(SIMPLE_ERR_FLAG, t, tail);
            assert(whole =~= seq![SIMPLE_ERR_FLAG] + encode_utf8(t) + crlf() + tail);
        },
        Model::Integer(n) => {
            lemma_number_frame(INTEGER_FLAG, n as int, tail);
            assert(whole =~= seq![INTEGER_FLAG] + int_digits(n as int) + crlf() + tail);
        },
        Model::BulkString(None) => {
            lemma_number_frame(BULK_STR_FLAG, -1, tail);
            assert(whole =~= seq![BULK_STR_FLAG] + int_digits(-1) + crlf() + tail);
        },
        Model::BulkString(Some(p)) => {
            let behind = p + crlf() + tail;
            lemma_number_frame(BULK_STR_FLAG, p.len() as int, behind);
            assert(whole =~= seq![BULK_STR_FLAG] + int_digits(p.len() as int) + crlf() + behind);
            assert(crlf_at(behind, p.len() as int));
            assert(behind.take(p.len() as int) =~= p);
        },
        Model::Array(items) => {
            let behind = encoding_all(items) + tail;
            lemma_number_frame(ARRAY_FLAG, items.len() as int, behind);
            assert(whole =~= seq![ARRAY_FLAG] + int_digits(items.len() as int) + crlf() + behind);
            lemma_decode_encode_all(items, tail);
        },
    }
}

/// Round trip for values that stand one behind the other.
pub proof fn lemma_decode_encode_all(items: Seq<Model>, tail: Seq<u8>)
    requires
        all_writable(items),
    ensures
        decoding_all(encoding_all(items) + tail, items.len()) == Ok::<
            (Seq<Model>, nat),
            ProtocolError,
        >((items, encoding_all(items).len())),
    decreases items,
{
    if items.len() == 0 {
        assert(items =~= Seq::<Model>::empty());
    } else {
        let first = items[0];
        let others = items.drop_first();
        let behind = encoding_all(others) + tail;
        let whole = encoding_all(items) + tail;
        lemma_decode_encode(first, behind);
        lemma_decode_encode_all(others, tail);
        assert(whole =~= encoding(first) + behind);
        assert(whole.skip(encoding(first).len() as int) =~= behind);
        assert(seq![first] + others =~= items);
        assert(decoding(whole) == Ok::<(Model, nat), ProtocolError>(
            (first, encoding(first).len()),
        ));
        assert(decoding_all(behind, others.len()) == Ok::<(Seq<Model>, nat), ProtocolError>(
            (others, encoding_all(others).len()),
        ));
        assert(encoding_all(items).len() == encoding(first).len() + encoding_all(others).len());
    }
}

/// Round trip, as the two functions of a value state it: what `encode`
/// returns for a value, `decode` reads back as that value, using all of it.
pub proof fn lemma_round_trip(v: RespData)
    requires
        writable(v@),
    ensures
        decoding(encoding(v@)) == Ok::<(Model, nat), ProtocolError>(
            (v@, encoding(v@).len()),
        ),
{
    lemma_decode_encode(v@, Seq::empty());
    assert(encoding(v@) + Seq::<u8>::empty() =~= encoding(v@));
}

/// Whether more bytes behind the buffer leave the outcome as it is: every
/// outcome but `Incomplete` is final.
pub open spec fn is_final<T>(outcome: Result<T, ProtocolError>) -> bool {
    match outcome {
        Ok(_) => true,
        Err(e) => !e.is_resumable(),
    }
}

/// A value takes at least one byte of the buffer, and no more than the
/// buffer holds.
pub proof fn lemma_decoding_bound(buf: Seq<u8>)
    ensures
        decoding(buf) matches Ok((_, used)) ==> 0 < used <= buf.len(),
    decreases buf.len(), 0nat,
{
    if buf.len() > 0 && kind_of(buf[0]) is Ok && line_len(buf) is Some {
        lemma_line_len(buf);
        let n = line_len(buf)->Some_0;
        let line = buf.take(n as int);
        let rest = buf.skip(n as int + 2);
        if kind_of(buf[0])->Ok_0 is Array {
            match declared_len(line) {
                Ok(Some(k)) => {
                    lemma_decoding_all_bound(rest, k);
                },
                _ => {},
            }
        }
    }
}

/// Values that stand one behind the other take no more than the buffer
/// holds, and there are as many of them as were asked for.
pub proof fn lemma_decoding_all_bound(buf: Seq<u8>, count: nat)
    ensures
        decoding_all(buf, count) matches Ok((items, used)) ==> used <= buf.len() && items.len()
            == count,
    decreases buf.len(), count + 1,
{
    if count > 0 {
        lemma_decoding_bound(buf);
        match decoding(buf) {
            Ok((_, n)) => {
                lemma_decoding_all_bound(buf.skip(n as int), (count - 1) as nat);
            },
            Err(_) => {},
        }
    }
}

/// Reading can be taken up again: what a buffer gives, it gives whatever
/// comes behind it, unless it is `Incomplete`. A value that was read stays
/// the value with the same length, and a fault stays the fault.
pub proof fn lemma_decoding_stable(buf: Seq<u8>, more: Seq<u8>)
    requires
        is_final(decoding(buf)),
    ensures
        decoding(buf + more) == decoding(buf),
    decreases buf.len(), 0nat,
{
    let longer = buf + more;
    assert(longer[0] == buf[0]);
    if kind_of(buf[0]) is Ok {
        lemma_line_len(buf);
        lemma_line_len_stable(buf, more);
        let n = line_len(buf)->Some_0;
        let line = buf.take(n as int);
        let rest = buf.skip(n as int + 2);
        assert(longer.take(n as int) =~= line);
        assert(longer.skip(n as int + 2) =~= rest + more);
        match kind_of(buf[0])->Ok_0 {
            DataType::BulkString => {
                match declared_len(line) {
                    Ok(Some(k)) => {
                        assert(crlf_at(rest + more, k as int) == crlf_at(rest, k as int));
                        if crlf_at(rest, k as int) {
                            assert((rest + more).take(k as int) =~= rest.take(k as int));
                        }
                    },
                    _ => {},
                }
            },
            DataType::Array => {
                match declared_len(line) {
                    Ok(Some(k)) => {
                        lemma_decoding_all_stable(rest, k, more);
                    },
                    _ => {},
                }
            },
            _ => {},
        }
    }
}

/// Reading values that stand one behind the other can be taken up again
/// in the same way.
pub proof fn lemma_decoding_all_stable(buf: Seq<u8>, count: nat, more: Seq<u8>)
    requires
        is_final(decoding_all(buf, count)),
    ensures
        decoding_all(buf + more, count) == decoding_all(buf, count),
    decreases buf.len(), count + 1,
{
    if count > 0 {
        lemma_decoding_stable(buf, more);
        match decoding(buf) {
            Ok((_, n)) => {
                assert((buf + more).skip(n as int) =~= buf.skip(n as int) + more);
                lemma_decoding_all_stable(buf.skip(n as int), (count - 1) as nat, more);
            },
            Err(_) => {},
        }
    }
}

/// The bytes of a value can be cut into tokens: where what stands behind
/// them can be cut, so can the whole.
pub proof fn lemma_tokens_of_encoding(v: Model, tail: Seq<u8>)
    requires
        writable(v),
        tokens_of(tail) is Ok,
    ensures
        tokens_of(encoding(v) + tail) is Ok,
    decreases v,
{
    let whole = encoding(v) + tail;
    match v {
        Model::SimpleString(t) => {
            lemma_text_frame(SIMPLE_STR_FLAG, t, tail);
            assert(whole =~= seq![SIMPLE_STR_FLAG] + encode_utf8(t) + crlf() + tail);
        },
        Model::Error(t) => {
            lemma_text_frame(SIMPLE_ERR_FLAG, t, tail);
            assert(whole =~= seq![SIMPLE_ERR_FLAG] + encode_utf8(t) + crlf() + tail);
        },
        Model::Integer(n) => {
            lemma_number_frame(INTEGER_FLAG, n as int, tail);
            assert(whole =~= seq![INTEGER_FLAG] + int_digits(n as int) + crlf() + tail);
        },
        Model::BulkString(None) => {
            lemma_number_frame(BULK_STR_FLAG, -1, tail);
            assert(whole =~= seq![BULK_STR_FLAG] + int_digits(-1) + crlf() + tail);
        },
        Model::BulkString(Some(p)) => {
            let behind = p + crlf() + tail;
            lemma_number_frame(BULK_STR_FLAG, p.len() as int, behind);
            assert(whole =~= seq![BULK_STR_FLAG] + int_digits(p.len() as int) + crlf() + behind);
            assert(crlf_at(behind, p.len() as int));
            assert(behind.skip(p.len() as int + 2) =~= tail);
        },
        Model::Array(items) => {
            let behind = encoding_all(items) + tail;
            lemma_number_frame(ARRAY_FLAG, items.len() as int, behind);
            assert(whole =~= seq![ARRAY_FLAG] + int_digits(items.len() as int) + crlf() + behind);
            lemma_tokens_of_encoding_all(items, tail);
        },
    }
}

/// The bytes of values that stand one behind the other can be cut into
/// tokens in the same way.
pub proof fn lemma_tokens_of_encoding_all(items: Seq<Model>, tail: Seq<u8>)
    requires
        all_writable(items),
        tokens_of(tail) is Ok,
    ensures
        tokens_of(encoding_all(items) + tail) is Ok,
    decreases items,
{
    if items.len() == 0 {
        assert(encoding_all(items) + tail =~= tail);
    } else {
        let behind = encoding_all(items.drop_first()) + tail;
        lemma_tokens_of_encoding_all(items.drop_first(), tail);
        lemma_tokens_of_encoding(items[0], behind);
        assert(encoding_all(items) + tail =~= encoding(items[0]) + behind);
    }
}

} // verus!
