//! The tokenizer: it cuts a buffer into the tokens of the frames that are
//! complete in it, and keeps what is left for later.
//!
//! A token is a line without its terminator. The line that opens a bulk
//! string says how many bytes the payload has; the payload is a token of
//! its own and is taken by that count, whatever bytes it holds.

use crate::decimal::{parse_i64, parse_int};
use crate::resp::constant::{
    crlf, lemma_constants, terminator, BULK_STR_FLAG, CR, LF, RESP_TERMINATOR,
};
use crate::resp::error::ProtocolError;
use crate::text::{
    join, latin, lemma_encode_concat, lemma_encode_latin, string_from_utf8, texts,
};
use vstd::prelude::*;
use vstd::slice::{slice_subrange, slice_to_vec};
use vstd::std_specs::convert::{FromSpecImpl, TryFromSpecImpl};
use vstd::string::StringExecFns;
use vstd::utf8::{
    decode_utf8, encode_utf8, encode_utf8_decode_utf8, encode_utf8_valid_utf8,
    is_char_boundary_iff_not_is_continuation_byte, pop_first_scalar, valid_utf8, valid_utf8_split,
};

verus! {

/// Tokens as text.
pub type Tokens = Vec<String>;

/// The tokens of a buffer, in order. The last one is what the buffer holds
/// behind its last complete frame: empty if nothing is left over.
#[derive(Debug)]
pub struct RespTokens(pub Tokens);

/// Whether the terminator stands at index `i` of the buffer.
pub open spec fn crlf_at(buf: Seq<u8>, i: int) -> bool {
    0 <= i && i + 1 < buf.len() && buf[i] == CR && buf[i + 1] == LF
}

/// The length of the first line of the buffer: the number of bytes before
/// the first terminator. `None` if the buffer holds no terminator.
pub open spec fn line_len(buf: Seq<u8>) -> Option<nat>
    decreases buf.len(),
{
    if buf.len() < 2 {
        None
    } else if buf[0] == CR && buf[1] == LF {
        Some(0)
    } else {
        match line_len(buf.skip(1)) {
            Some(n) => Some(n + 1),
            None => None,
        }
    }
}

/// The number that the header line of a bulk string or an array declares,
/// behind the type flag: `None` for -1, which stands for an absent value.
pub open spec fn declared_len(line: Seq<u8>) -> Result<Option<nat>, ProtocolError> {
    match parse_int(line.skip(1)) {
        None => Err(ProtocolError::InvalidLength),
        Some(n) => if n < -1 {
            Err(ProtocolError::InvalidLength)
        } else if n == -1 {
            Ok(None)
        } else {
            Ok(Some(n as nat))
        },
    }
}

/// The payload of a bulk string of declared length `k`, at the head of what
/// stands behind the header: the first `k` bytes, whatever they are, with
/// the terminator behind them. `None` while fewer bytes than that are
/// there. Where other bytes than the terminator stand behind the first
/// `k`, the length is not the length of the payload.
pub open spec fn payload_of(rest: Seq<u8>, k: nat) -> Result<Option<Seq<u8>>, ProtocolError> {
    if rest.len() < k + 2 {
        Ok(None)
    } else if !crlf_at(rest, k as int) {
        Err(ProtocolError::InvalidLength)
    } else {
        Ok(Some(rest.take(k as int)))
    }
}

/// Whether the line opens a bulk string.
pub open spec fn is_bulk_header(line: Seq<u8>) -> bool {
    line.len() > 0 && line[0] == BULK_STR_FLAG
}

/// The tokens, with some more in front of them.
pub open spec fn after(first: Seq<Seq<u8>>, rest: Result<Seq<Seq<u8>>, ProtocolError>) -> Result<
    Seq<Seq<u8>>,
    ProtocolError,
> {
    match rest {
        Ok(tokens) => Ok(first + tokens),
        Err(e) => Err(e),
    }
}

/// The tokens of a buffer.
///
/// Each line gives one token. Behind the header of a bulk string of `k`
/// bytes, the next `k` bytes are one token, and the terminator must follow
/// them. The last token is the rest of the buffer, from the first byte that
/// belongs to no complete line or bulk string.
///
/// A buffer is refused for one reason only: the length prefix of a bulk
/// string is not valid.
pub open spec fn tokens_of(buf: Seq<u8>) -> Result<Seq<Seq<u8>>, ProtocolError>
    decreases buf.len(),
    via tokens_of_decreases
{
    match line_len(buf) {
        None => Ok(seq![buf]),
        Some(n) => {
            let line = buf.take(n as int);
            let rest = buf.skip(n as int + 2);
            if is_bulk_header(line) {
                match declared_len(line) {
                    Err(e) => Err(e),
                    Ok(None) => after(seq![line], tokens_of(rest)),
                    Ok(Some(k)) => match payload_of(rest, k) {
                        Err(e) => Err(e),
                        Ok(None) => Ok(seq![buf]),
                        Ok(Some(payload)) => after(
                            seq![line, payload],
                            tokens_of(rest.skip(k as int + 2)),
                        ),
                    },
                }
            } else {
                after(seq![line], tokens_of(rest))
            }
        },
    }
}

#[via_fn]
proof fn tokens_of_decreases(buf: Seq<u8>) {
    lemma_line_len(buf);
}

/// The first line ends at the first terminator.
pub proof fn lemma_line_len(buf: Seq<u8>)
    ensures
        match line_len(buf) {
            Some(n) => crlf_at(buf, n as int) && forall|j: int| 0 <= j < n ==> !crlf_at(buf, j),
            None => forall|j: int| !crlf_at(buf, j),
        },
    decreases buf.len(),
{
    if buf.len() >= 2 && !(buf[0] == CR && buf[1] == LF) {
        let tail = buf.skip(1);
        lemma_line_len(tail);
        match line_len(tail) {
            Some(n) => {
                assert(crlf_at(tail, n as int));
                assert forall|j: int| 0 <= j < n + 1 implies !crlf_at(buf, j) by {
                    if j > 0 {
                        assert(!crlf_at(tail, j - 1));
                    }
                }
            },
            None => {
                assert forall|j: int| !crlf_at(buf, j) by {
                    if j > 0 {
                        assert(!crlf_at(tail, j - 1));
                    }
                }
            },
        }
    }
}

/// Where the first terminator stands, there the first line ends.
pub proof fn lemma_line_len_is(buf: Seq<u8>, n: int)
    requires
        crlf_at(buf, n),
        forall|j: int| 0 <= j < n ==> !crlf_at(buf, j),
    ensures
        line_len(buf) == Some(n as nat),
{
    lemma_line_len(buf);
    match line_len(buf) {
        Some(m) => {
            if m < n {
                assert(!crlf_at(buf, m as int));
            } else if n < m {
                assert(!crlf_at(buf, n));
            }
        },
        None => {
            assert(!crlf_at(buf, n));
        },
    }
}

/// The views of a sequence of byte vectors.
pub open spec fn byte_lines(v: Seq<Vec<u8>>) -> Seq<Seq<u8>> {
    v.map_values(|t: Vec<u8>| t@)
}

/// The texts that byte tokens encode.
pub open spec fn decoded(tokens: Seq<Seq<u8>>) -> Seq<Seq<char>> {
    tokens.map_values(|t: Seq<u8>| decode_utf8(t))
}

/// Whether every token is UTF-8.
pub open spec fn all_utf8(tokens: Seq<Seq<u8>>) -> bool {
    forall|i: int| 0 <= i < tokens.len() ==> valid_utf8(#[trigger] tokens[i])
}

/// Finds the end of the line that starts at `from`.
pub(crate) fn find_line_end(buf: &[u8], from: usize) -> (r: Option<usize>)
    requires
        from <= buf.len(),
    ensures
        match r {
            Some(end) => from <= end && end + 2 <= buf.len() && line_len(buf@.skip(from as int))
                == Some((end - from) as nat),
            None => line_len(buf@.skip(from as int)) is None,
        },
{
    let n: usize = buf.len();
    let ghost tail = buf@.skip(from as int);
    let mut i: usize = from;
    while n - i >= 2
        invariant
            from <= i <= n,
            n == buf.len(),
            tail == buf@.skip(from as int),
            forall|j: int| 0 <= j < i - from ==> !crlf_at(tail, j),
        decreases n - i,
    {
        if buf[i] == CR && buf[i + 1] == LF {
            proof {
                assert(crlf_at(tail, i - from));
                lemma_line_len_is(tail, i - from);
            }
            return Some(i);
        }
        assert(!crlf_at(tail, i - from));
        i += 1;
    }
    proof {
        lemma_line_len(tail);
        if line_len(tail) is Some {
            let m = line_len(tail)->Some_0;
            assert(crlf_at(tail, m as int));
            assert(m < i - from);
        }
    }
    None
}

/// Reads the number that a header line declares behind its type flag.
pub(crate) fn read_len(line: &[u8]) -> (r: Result<Option<u64>, ProtocolError>)
    requires
        line.len() > 0,
    ensures
        match r {
            Ok(Some(k)) => declared_len(line@) == Ok::<Option<nat>, ProtocolError>(
                Some(k as nat),
            ),
            Ok(None) => declared_len(line@) == Ok::<Option<nat>, ProtocolError>(None),
            Err(e) => declared_len(line@) == Err::<Option<nat>, ProtocolError>(e),
        },
{
    match parse_i64(slice_subrange(line, 1, line.len())) {
        None => Err(ProtocolError::InvalidLength),
        Some(n) => {
            if n < -1 {
                Err(ProtocolError::InvalidLength)
            } else if n == -1 {
                Ok(None)
            } else {
                Ok(Some(n as u64))
            }
        },
    }
}

/// Finds the end of the payload of `k` bytes that starts at `from`.
pub(crate) fn read_payload(buf: &[u8], from: usize, k: u64) -> (r: Result<
    Option<usize>,
    ProtocolError,
>)
    requires
        from <= buf.len(),
    ensures
        match r {
            Ok(Some(stop)) => stop == from + k && stop + 2 <= buf.len() && payload_of(
                buf@.skip(from as int),
                k as nat,
            ) == Ok::<Option<Seq<u8>>, ProtocolError>(
                Some(buf@.subrange(from as int, stop as int)),
            ),
            Ok(None) => payload_of(buf@.skip(from as int), k as nat) == Ok::<
                Option<Seq<u8>>,
                ProtocolError,
            >(None),
            Err(e) => payload_of(buf@.skip(from as int), k as nat) == Err::<
                Option<Seq<u8>>,
                ProtocolError,
            >(e),
        },
{
    let left: u64 = (buf.len() - from) as u64;
    if left < k || left - k < 2 {
        return Ok(None);
    }
    let stop: usize = from + (k as usize);
    let ghost rest = buf@.skip(from as int);
    if buf[stop] == CR && buf[stop + 1] == LF {
        assert(crlf_at(rest, k as int));
        assert(rest.take(k as int) =~= buf@.subrange(from as int, stop as int));
        Ok(Some(stop))
    } else {
        assert(!crlf_at(rest, k as int));
        Err(ProtocolError::InvalidLength)
    }
}

/// Cuts the buffer into its tokens.
pub fn tokenize(buf: &[u8]) -> (r: Result<Vec<Vec<u8>>, ProtocolError>)
    ensures
        match r {
            Ok(tokens) => tokens_of(buf@) == Ok::<Seq<Seq<u8>>, ProtocolError>(
                byte_lines(tokens@),
            ),
            Err(e) => tokens_of(buf@) == Err::<Seq<Seq<u8>>, ProtocolError>(e),
        },
{
    let n: usize = buf.len();
    let mut out: Vec<Vec<u8>> = Vec::new();
    let mut pos: usize = 0;
    proof {
        assert(buf@.skip(0) =~= buf@);
        assert(byte_lines(out@) =~= Seq::<Seq<u8>>::empty());
        assert(after(Seq::<Seq<u8>>::empty(), tokens_of(buf@)) == tokens_of(buf@)) by {
            match tokens_of(buf@) {
                Ok(t) => assert(Seq::<Seq<u8>>::empty() + t =~= t),
                Err(_) => {},
            }
        }
    }
    loop
        invariant
            pos <= n,
            n == buf.len(),
            tokens_of(buf@) == after(byte_lines(out@), tokens_of(buf@.skip(pos as int))),
        decreases n - pos,
    {
        let ghost tail = buf@.skip(pos as int);
        let ghost done = byte_lines(out@);
        match find_line_end(buf, pos) {
            None => {
                let rest: Vec<u8> = slice_to_vec(slice_subrange(buf, pos, n));
                proof {
                    assert(rest@ =~= tail);
                    assert(byte_lines(out@.push(rest)) =~= done + seq![tail]);
                }
                out.push(rest);
                return Ok(out);
            },
            Some(end) => {
                let line: &[u8] = slice_subrange(buf, pos, end);
                let next: usize = end + 2;
                let ghost rest = tail.skip(end - pos + 2);
                proof {
                    assert(line@ =~= tail.take(end - pos));
                    assert(rest =~= buf@.skip(next as int));
                }
                if end > pos && buf[pos] == BULK_STR_FLAG {
                    match read_len(line) {
                        Err(e) => {
                            return Err(e);
                        },
                        Ok(None) => {
                            let token: Vec<u8> = slice_to_vec(line);
                            proof {
                                lemma_after(done, seq![line@], tokens_of(rest));
                                assert(byte_lines(out@.push(token)) =~= done + seq![line@]);
                            }
                            out.push(token);
                            pos = next;
                        },
                        Ok(Some(k)) => match read_payload(buf, next, k) {
                            Err(e) => {
                                return Err(e);
                            },
                            Ok(None) => {
                                let all: Vec<u8> = slice_to_vec(slice_subrange(buf, pos, n));
                                proof {
                                    assert(all@ =~= tail);
                                    assert(byte_lines(out@.push(all)) =~= done + seq![tail]);
                                }
                                out.push(all);
                                return Ok(out);
                            },
                            Ok(Some(stop)) => {
                                let header: Vec<u8> = slice_to_vec(line);
                                let payload: Vec<u8> = slice_to_vec(
                                    slice_subrange(buf, next, stop),
                                );
                                proof {
                                    assert(rest.skip(k + 2) =~= buf@.skip(stop + 2));
                                    lemma_after(
                                        done,
                                        seq![line@, payload@],
                                        tokens_of(rest.skip(k + 2)),
                                    );
                                    assert(byte_lines(out@.push(header).push(payload)) =~= done
                                        + seq![line@, payload@]);
                                }
                                out.push(header);
                                out.push(payload);
                                pos = stop + 2;
                            },
                        },
                    }
                } else {
                    let token: Vec<u8> = slice_to_vec(line);
                    proof {
                        lemma_after(done, seq![line@], tokens_of(rest));
                        assert(byte_lines(out@.push(token)) =~= done + seq![line@]);
                    }
                    out.push(token);
                    pos = next;
                }
            },
        }
    }
}

/// Putting tokens in front in two steps is putting them in front at once.
pub proof fn lemma_after(
    first: Seq<Seq<u8>>,
    second: Seq<Seq<u8>>,
    rest: Result<Seq<Seq<u8>>, ProtocolError>,
)
    ensures
        after(first, after(second, rest)) == after(first + second, rest),
{
    match rest {
        Ok(tokens) => {
            assert(first + (second + tokens) =~= (first + second) + tokens);
        },
        Err(_) => {},
    }
}

/// The texts of byte tokens that are all UTF-8.
pub fn tokens_to_strings(tokens: &Vec<Vec<u8>>) -> (r: Option<Vec<String>>)
    ensures
        r is Some <==> all_utf8(byte_lines(tokens@)),
        r matches Some(v) ==> texts(v@) == decoded(byte_lines(tokens@)),
{
    let mut out: Vec<String> = Vec::new();
    let mut i: usize = 0;
    while i < tokens.len()
        invariant
            i <= tokens.len(),
            out@.len() == i,
            forall|j: int| 0 <= j < i ==> valid_utf8(#[trigger] byte_lines(tokens@)[j]),
            forall|j: int| 0 <= j < i ==> (#[trigger] out@[j])@ == decode_utf8(tokens@[j]@),
        decreases tokens.len() - i,
    {
        let bytes: Vec<u8> = tokens[i].clone();
        match string_from_utf8(bytes) {
            Some(s) => {
                proof {
                    encode_utf8_decode_utf8(s@);
                }
                out.push(s);
            },
            None => {
                assert(!valid_utf8(byte_lines(tokens@)[i as int]));
                return None;
            },
        }
        i += 1;
    }
    assert(texts(out@) =~= decoded(byte_lines(tokens@)));
    Some(out)
}

impl TryFrom<String> for RespTokens {
    type Error = ProtocolError;

    /// Cuts a buffer, given as text, into its tokens. The counts of the
    /// bulk headers are counts of bytes of the text in UTF-8. The tokens
    /// are the texts of the byte tokens, and the buffer is refused only
    /// where its bytes are: for a length prefix that is not valid. The
    /// tokens hold the whole buffer: joined again, they are the text.
    fn try_from(value: String) -> (r: Result<Self, Self::Error>)
        ensures
            match tokens_of(encode_utf8(value@)) {
                Ok(tokens) => r matches Ok(t) && texts(t.0@) == decoded(tokens) && join(
                    texts(t.0@),
                    terminator(),
                ) == value@,
                Err(e) => r matches Err(f) && f == e && e == ProtocolError::InvalidLength,
            },
    {
        proof {
            encode_utf8_valid_utf8(value@);
            lemma_tokens_of_text(encode_utf8(value@));
            lemma_only_lengths_are_refused(encode_utf8(value@));
            lemma_tokens_join_back(value@);
        }
        match tokenize(value.as_str().as_bytes()) {
            Ok(tokens) => match tokens_to_strings(&tokens) {
                Some(v) => Ok(RespTokens(v)),
                None => Err(ProtocolError::InvalidUtf8),
            },
            Err(e) => Err(e),
        }
    }
}

impl TryFromSpecImpl<String> for RespTokens {
    /// The contract stands on `try_from`, which speaks of texts.
    open spec fn obeys_try_from_spec() -> bool {
        false
    }

    open spec fn try_from_spec(value: String) -> Result<Self, Self::Error> {
        arbitrary()
    }
}

impl From<Vec<String>> for RespTokens {
    /// Tokens that were cut elsewhere.
    fn from(value: Vec<String>) -> (r: Self)
        ensures
            r.0 == value,
    {
        Self(value)
    }
}

impl FromSpecImpl<Vec<String>> for RespTokens {
    open spec fn obeys_from_spec() -> bool {
        true
    }

    open spec fn from_spec(value: Vec<String>) -> Self {
        RespTokens(value)
    }
}

/// The tokens with the terminator between each two.
pub fn joined(tokens: &Vec<String>) -> (out: String)
    ensures
        out@ == join(texts(tokens@), terminator()),
{
    let mut out: String = String::new();
    let mut i: usize = 0;
    let ghost all = texts(tokens@);
    proof {
        assert(all.take(0) =~= Seq::<Seq<char>>::empty());
    }
    while i < tokens.len()
        invariant
            i <= tokens.len(),
            all == texts(tokens@),
            out@ == join(all.take(i as int), terminator()),
        decreases tokens.len() - i,
    {
        proof {
            let now = all.take(i + 1);
            assert(now.drop_last() =~= all.take(i as int));
            assert(now.last() == tokens@[i as int]@);
        }
        if i > 0 {
            out.append(RESP_TERMINATOR);
        }
        out.append(tokens[i].as_str());
        proof {
            lemma_constants();
            if i > 0 {
                assert(out@ =~= join(all.take(i as int), terminator()) + terminator()
                    + tokens@[i as int]@);
            } else {
                assert(out@ =~= tokens@[i as int]@);
            }
        }
        i += 1;
    }
    assert(all.take(tokens.len() as int) =~= all);
    out
}

impl From<RespTokens> for String {
    /// The buffer that the tokens were cut from: the tokens with the
    /// terminator between each two.
    fn from(value: RespTokens) -> (out: Self)
        ensures
            out@ == join(texts(value.0@), terminator()),
    {
        joined(&value.0)
    }
}

impl FromSpecImpl<RespTokens> for String {
    /// The contract stands on `from`, which speaks of texts.
    open spec fn obeys_from_spec() -> bool {
        false
    }

    open spec fn from_spec(value: RespTokens) -> Self {
        arbitrary()
    }
}

/// The first line of a buffer stays its first line when bytes come behind.
pub proof fn lemma_line_len_stable(buf: Seq<u8>, more: Seq<u8>)
    requires
        line_len(buf) is Some,
    ensures
        line_len(buf + more) == line_len(buf),
{
    let n = line_len(buf)->Some_0 as int;
    let longer = buf + more;
    lemma_line_len(buf);
    assert(crlf_at(longer, n));
    assert forall|j: int| 0 <= j < n implies !crlf_at(longer, j) by {
        assert(!crlf_at(buf, j));
    }
    lemma_line_len_is(longer, n);
}

/// A buffer is refused for one reason only.
pub proof fn lemma_only_lengths_are_refused(buf: Seq<u8>)
    ensures
        tokens_of(buf) matches Err(e) ==> e == ProtocolError::InvalidLength,
    decreases buf.len(),
{
    lemma_line_len(buf);
    match line_len(buf) {
        None => {},
        Some(n) => {
            let line = buf.take(n as int);
            let rest = buf.skip(n as int + 2);
            if is_bulk_header(line) {
                match declared_len(line) {
                    Ok(Some(k)) => {
                        if rest.len() >= k + 2 && crlf_at(rest, k as int) {
                            lemma_only_lengths_are_refused(rest.skip(k as int + 2));
                        }
                    },
                    Ok(None) => {
                        lemma_only_lengths_are_refused(rest);
                    },
                    Err(_) => {},
                }
            } else {
                lemma_only_lengths_are_refused(rest);
            }
        },
    }
}

/// There is always a last token: what is left of the buffer.
pub proof fn lemma_tokens_end_with_rest(buf: Seq<u8>)
    ensures
        tokens_of(buf) matches Ok(tokens) ==> tokens.len() >= 1,
    decreases buf.len(),
{
    lemma_line_len(buf);
    match line_len(buf) {
        None => {},
        Some(n) => {
            let line = buf.take(n as int);
            let rest = buf.skip(n as int + 2);
            if is_bulk_header(line) {
                match declared_len(line) {
                    Ok(Some(k)) => {
                        if rest.len() >= k + 2 && crlf_at(rest, k as int) {
                            lemma_tokens_end_with_rest(rest.skip(k as int + 2));
                        }
                    },
                    Ok(None) => {
                        lemma_tokens_end_with_rest(rest);
                    },
                    Err(_) => {},
                }
            } else {
                lemma_tokens_end_with_rest(rest);
            }
        },
    }
}

/// Tokens in front of a buffer that is cut again stay in front.
proof fn lemma_resume_step(
    first: Seq<Seq<u8>>,
    tokens: Seq<Seq<u8>>,
    again: Result<Seq<Seq<u8>>, ProtocolError>,
)
    requires
        tokens.len() >= 1,
    ensures
        after(first, after(tokens.drop_last(), again)) == after(
            (first + tokens).drop_last(),
            again,
        ),
        (first + tokens).last() == tokens.last(),
{
    lemma_after(first, tokens.drop_last(), again);
    assert((first + tokens).drop_last() =~= first + tokens.drop_last());
}

/// Cutting can be taken up again. When more bytes come behind a buffer,
/// its tokens stay as they are but for the last: that one, with the new
/// bytes behind it, is cut again. So whoever keeps the last token of each
/// round loses nothing, however a frame is split across rounds. A buffer
/// that is refused stays refused.
pub proof fn lemma_tokens_resume(buf: Seq<u8>, more: Seq<u8>)
    ensures
        match tokens_of(buf) {
            Ok(tokens) => tokens.len() >= 1 && tokens_of(buf + more) == after(
                tokens.drop_last(),
                tokens_of(tokens.last() + more),
            ),
            Err(e) => tokens_of(buf + more) == Err::<Seq<Seq<u8>>, ProtocolError>(e),
        },
    decreases buf.len(),
{
    let longer = buf + more;
    let none = Seq::<Seq<u8>>::empty();
    lemma_line_len(buf);
    lemma_tokens_end_with_rest(buf);
    assert(seq![buf].drop_last() =~= none);
    match tokens_of(longer) {
        Ok(t) => assert(none + t =~= t),
        Err(_) => {},
    }
    match line_len(buf) {
        None => {},
        Some(n) => {
            lemma_line_len_stable(buf, more);
            let line = buf.take(n as int);
            let rest = buf.skip(n as int + 2);
            assert(longer.take(n as int) =~= line);
            assert(longer.skip(n as int + 2) =~= rest + more);
            if is_bulk_header(line) {
                match declared_len(line) {
                    Ok(Some(k)) => {
                        if rest.len() >= k + 2 {
                            assert(crlf_at(rest + more, k as int) == crlf_at(rest, k as int));
                            if crlf_at(rest, k as int) {
                                let behind = rest.skip(k as int + 2);
                                assert((rest + more).take(k as int) =~= rest.take(k as int));
                                assert((rest + more).skip(k as int + 2) =~= behind + more);
                                lemma_tokens_resume(behind, more);
                                match tokens_of(behind) {
                                    Ok(tokens) => {
                                        lemma_resume_step(
                                            seq![line, rest.take(k as int)],
                                            tokens,
                                            tokens_of(tokens.last() + more),
                                        );
                                    },
                                    Err(_) => {},
                                }
                            }
                        }
                    },
                    Ok(None) => {
                        lemma_tokens_resume(rest, more);
                        match tokens_of(rest) {
                            Ok(tokens) => {
                                lemma_resume_step(
                                    seq![line],
                                    tokens,
                                    tokens_of(tokens.last() + more),
                                );
                            },
                            Err(_) => {},
                        }
                    },
                    Err(_) => {},
                }
            } else {
                lemma_tokens_resume(rest, more);
                match tokens_of(rest) {
                    Ok(tokens) => {
                        lemma_resume_step(seq![line], tokens, tokens_of(tokens.last() + more));
                    },
                    Err(_) => {},
                }
            }
        },
    }
}

/// A text without its first byte is a text, if that byte is ASCII.
proof fn lemma_behind_ascii(buf: Seq<u8>)
    requires
        valid_utf8(buf),
        buf.len() > 0,
        buf[0] < 128,
    ensures
        valid_utf8(buf.skip(1)),
{
    assert(pop_first_scalar(buf) =~= buf.skip(1));
}

/// A text cut at a terminator gives two texts: what stands before the
/// terminator and what stands behind it.
pub proof fn lemma_cut_at_terminator(buf: Seq<u8>, i: int)
    requires
        valid_utf8(buf),
        crlf_at(buf, i),
    ensures
        valid_utf8(buf.take(i)),
        valid_utf8(buf.skip(i + 2)),
{
    is_char_boundary_iff_not_is_continuation_byte(buf, i);
    valid_utf8_split(buf, i);
    let behind = buf.skip(i);
    assert(buf.subrange(0, i) =~= buf.take(i));
    assert(buf.subrange(i, buf.len() as int) =~= behind);
    lemma_behind_ascii(behind);
    lemma_behind_ascii(behind.skip(1));
    assert(behind.skip(1).skip(1) =~= buf.skip(i + 2));
}

/// The tokens of a text are texts: where the buffer is UTF-8, so is every
/// token, the payloads among them. A count that would cut a character in
/// two is never the length of a payload, since no terminator stands
/// inside a character.
pub proof fn lemma_tokens_of_text(buf: Seq<u8>)
    requires
        valid_utf8(buf),
    ensures
        tokens_of(buf) matches Ok(tokens) ==> all_utf8(tokens),
    decreases buf.len(),
{
    lemma_line_len(buf);
    match line_len(buf) {
        None => {},
        Some(n) => {
            let line = buf.take(n as int);
            let rest = buf.skip(n as int + 2);
            lemma_cut_at_terminator(buf, n as int);
            if is_bulk_header(line) {
                match declared_len(line) {
                    Ok(Some(k)) => {
                        if rest.len() >= k + 2 && crlf_at(rest, k as int) {
                            lemma_cut_at_terminator(rest, k as int);
                            lemma_tokens_of_text(rest.skip(k as int + 2));
                        }
                    },
                    Ok(None) => {
                        lemma_tokens_of_text(rest);
                    },
                    Err(_) => {},
                }
            } else {
                lemma_tokens_of_text(rest);
            }
        },
    }
}

/// Byte tokens in order, with the terminator between each two.
pub open spec fn glued(tokens: Seq<Seq<u8>>) -> Seq<u8>
    decreases tokens.len(),
{
    if tokens.len() == 0 {
        Seq::empty()
    } else if tokens.len() == 1 {
        tokens[0]
    } else {
        glued(tokens.drop_last()) + crlf() + tokens.last()
    }
}

/// Gluing two runs of tokens is gluing each and then the two.
proof fn lemma_glued_concat(a: Seq<Seq<u8>>, b: Seq<Seq<u8>>)
    requires
        a.len() >= 1,
        b.len() >= 1,
    ensures
        glued(a + b) == glued(a) + crlf() + glued(b),
    decreases b.len(),
{
    let all = a + b;
    assert(all.drop_last() =~= a + b.drop_last());
    assert(all.last() == b.last());
    if b.len() == 1 {
        assert(a + b.drop_last() =~= a);
    } else {
        lemma_glued_concat(a, b.drop_last());
        assert(glued(all) =~= glued(a) + crlf() + glued(b));
    }
}

/// Gluing with one token in front.
proof fn lemma_glued_behind(first: Seq<u8>, tokens: Seq<Seq<u8>>)
    requires
        tokens.len() >= 1,
    ensures
        glued(seq![first] + tokens) == first + crlf() + glued(tokens),
{
    assert(glued(seq![first]) == first);
    lemma_glued_concat(seq![first], tokens);
}

/// What stands behind the first line of a buffer.
proof fn lemma_line_and_rest(buf: Seq<u8>, n: nat)
    requires
        line_len(buf) == Some(n),
    ensures
        buf == buf.take(n as int) + crlf() + buf.skip(n as int + 2),
{
    lemma_line_len(buf);
    assert(buf =~= buf.take(n as int) + crlf() + buf.skip(n as int + 2));
}

/// What stands behind a payload.
proof fn lemma_payload_and_rest(rest: Seq<u8>, k: nat)
    requires
        payload_of(rest, k) is Ok,
        payload_of(rest, k)->Ok_0 is Some,
    ensures
        rest == rest.take(k as int) + crlf() + rest.skip(k as int + 2),
{
    assert(rest =~= rest.take(k as int) + crlf() + rest.skip(k as int + 2));
}

/// The tokens hold the whole buffer: glued together again, they are the
/// buffer that they were cut from.
pub proof fn lemma_tokens_glue_back(buf: Seq<u8>)
    ensures
        tokens_of(buf) matches Ok(tokens) ==> glued(tokens) == buf,
    decreases buf.len(),
{
    lemma_line_len(buf);
    match line_len(buf) {
        None => {},
        Some(n) => {
            let line = buf.take(n as int);
            let rest = buf.skip(n as int + 2);
            lemma_line_and_rest(buf, n);
            if is_bulk_header(line) && declared_len(line) is Ok && declared_len(line)->Ok_0
                is Some {
                let k = declared_len(line)->Ok_0->Some_0;
                match payload_of(rest, k) {
                    Ok(Some(payload)) => {
                        let behind = rest.skip(k as int + 2);
                        lemma_payload_and_rest(rest, k);
                        lemma_tokens_glue_back(behind);
                        lemma_tokens_end_with_rest(behind);
                        match tokens_of(behind) {
                            Ok(tokens) => {
                                lemma_glued_behind(payload, tokens);
                                lemma_glued_behind(line, seq![payload] + tokens);
                                assert(seq![line] + (seq![payload] + tokens) =~= seq![
                                    line,
                                    payload,
                                ] + tokens);
                            },
                            Err(_) => {},
                        }
                    },
                    _ => {},
                }
            } else if !is_bulk_header(line) || declared_len(line) is Ok {
                lemma_tokens_glue_back(rest);
                lemma_tokens_end_with_rest(rest);
                match tokens_of(rest) {
                    Ok(tokens) => {
                        lemma_glued_behind(line, tokens);
                    },
                    Err(_) => {},
                }
            }
        },
    }
}

/// The UTF-8 form of each text.
pub open spec fn encoded(tokens: Seq<Seq<char>>) -> Seq<Seq<u8>> {
    tokens.map_values(|t: Seq<char>| encode_utf8(t))
}

/// Joining texts and gluing their bytes give the same buffer.
pub proof fn lemma_join_is_glue(tokens: Seq<Seq<char>>)
    ensures
        encode_utf8(join(tokens, terminator())) == glued(encoded(tokens)),
    decreases tokens.len(),
{
    let bytes = encoded(tokens);
    if tokens.len() >= 2 {
        let front = tokens.drop_last();
        lemma_join_is_glue(front);
        assert(bytes.drop_last() =~= encoded(front));
        assert(terminator() =~= latin(crlf()));
        lemma_encode_latin(crlf());
        lemma_encode_concat(join(front, terminator()), terminator());
        lemma_encode_concat(join(front, terminator()) + terminator(), tokens.last());
    }
}

/// The tokens of a text hold the whole text: joined again with the
/// terminator between each two, they are the text that they were cut from.
pub proof fn lemma_tokens_join_back(value: Seq<char>)
    ensures
        tokens_of(encode_utf8(value)) matches Ok(tokens) ==> join(decoded(tokens), terminator())
            == value,
{
    let buf = encode_utf8(value);
    encode_utf8_valid_utf8(value);
    lemma_tokens_of_text(buf);
    lemma_tokens_glue_back(buf);
    match tokens_of(buf) {
        Ok(tokens) => {
            let words = decoded(tokens);
            lemma_join_is_glue(words);
            assert(encoded(words) =~= tokens) by {
                assert forall|i: int| 0 <= i < tokens.len() implies encoded(words)[i]
                    == tokens[i] by {
                    assert(valid_utf8(tokens[i]));
                    vstd::utf8::decode_utf8_encode_utf8(tokens[i]);
                }
            }
            encode_utf8_decode_utf8(join(words, terminator()));
            encode_utf8_decode_utf8(value);
        },
        Err(_) => {},
    }
}

} // verus!
