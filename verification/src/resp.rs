//! The binary protocol codec: a tagged value tree, its byte encoding, and a
//! cursor-based streaming decoder.
use vstd::prelude::*;
use vstd::utf8::{decode_utf8, valid_utf8};
use vstd::string::StrSliceExecFns;

use crate::resp_result::{RESPError, RESPLength, RESPResult};
use crate::resp_spec::{
    crlf, encoding_of, encoding_of_seq, lemma_encoding_of_seq_push, null_encoding,
    all_digits, dec_digits, digits_value, find_crlf, lemma_decode_advances, lemma_digits_value_monotone,
    lemma_extract_line_ok, remaining, spec_decode, spec_decode_elems, spec_extract_bytes,
    spec_extract_length, spec_extract_line, spec_extract_line_str, spec_parse_array,
    spec_parse_bulk_string, spec_parse_i32, spec_parse_simple_string, spec_remove_type,
};

verus! {

broadcast use vstd::std_specs::vec::group_vec_axioms, vstd::seq::group_seq_axioms;

/// One protocol value: an array of values, a line-terminated simple string,
/// a length-prefixed bulk string, or the null value.
#[derive(Debug, PartialEq, Eq)]
pub enum RESP {
    Array(Vec<RESP>),
    SimpleString(String),
    BulkString(String),
    Null,
}

/// The mathematical model of a protocol value: the same tree with sequences
/// in place of vectors and strings.
pub enum RespVal {
    Array(Seq<RespVal>),
    SimpleString(Seq<char>),
    BulkString(Seq<char>),
    Null,
}

/// The model of a concrete protocol value.
pub open spec fn resp_view(v: RESP) -> RespVal
    decreases v,
{
    match v {
        RESP::Array(elems) => RespVal::Array(resp_seq_view(elems@)),
        RESP::SimpleString(s) => RespVal::SimpleString(s@),
        RESP::BulkString(s) => RespVal::BulkString(s@),
        RESP::Null => RespVal::Null,
    }
}

/// The models of a sequence of concrete protocol values, in order.
pub open spec fn resp_seq_view(elems: Seq<RESP>) -> Seq<RespVal>
    decreases elems,
{
    if elems.len() == 0 {
        Seq::empty()
    } else {
        resp_seq_view(elems.drop_last()).push(resp_view(elems.last()))
    }
}

/// `resp_seq_view` maps `resp_view` over the sequence, element by element.
pub proof fn lemma_resp_seq_view(elems: Seq<RESP>)
    ensures
        resp_seq_view(elems).len() == elems.len(),
        forall|i: int|
            0 <= i < elems.len() ==> resp_seq_view(elems)[i] == resp_view(#[trigger] elems[i]),
    decreases elems,
{
    if elems.len() > 0 {
        lemma_resp_seq_view(elems.drop_last());
        assert forall|i: int| 0 <= i < elems.len() implies resp_seq_view(elems)[i] == resp_view(
            #[trigger] elems[i],
        ) by {
            if i < elems.len() - 1 {
                assert(elems.drop_last()[i] == elems[i]);
            }
        }
    }
}

impl View for RESP {
    type V = RespVal;

    open spec fn view(&self) -> RespVal {
        resp_view(*self)
    }
}

// ---------------------------------------------------------------------------
// Low-level extraction
// ---------------------------------------------------------------------------
/// Relies on `String::from_utf8`: it succeeds exactly on valid UTF-8 input
/// and returns the string made of those very bytes.
#[verifier::external_body]
fn bytes_into_string(bytes: Vec<u8>) -> (r: Option<String>)
    ensures
        r is Some <==> valid_utf8(bytes@),
        r matches Some(s) ==> s@ == decode_utf8(bytes@),
{
    String::from_utf8(bytes).ok()
}

/// Extract the bytes of one line, up to the first CR LF terminator, and move
/// the cursor past the terminator.
pub fn binary_extract_line(buffer: &[u8], index: &mut usize) -> (r: RESPResult<Vec<u8>>)
    ensures
        match r {
            Ok(line) => spec_extract_line(buffer@, *old(index) as int) == Ok::<
                (Seq<u8>, int),
                (RESPError, int),
            >((line@, *final(index) as int)),
            Err(e) => spec_extract_line(buffer@, *old(index) as int) == Err::<
                (Seq<u8>, int),
                (RESPError, int),
            >((e, *final(index) as int)),
        },
{
    if *index >= buffer.len() {
        return Err(RESPError::OutOfBounds(*index));
    }
    if buffer.len() - *index - 1 < 2 {
        *index = buffer.len();
        return Err(RESPError::OutOfBounds(*index));
    }
    let ghost i = *index as int;
    let mut k: usize = *index + 1;
    while k < buffer.len() && !(buffer[k] == 10 && buffer[k - 1] == 13)
        invariant
            i + 1 <= k <= buffer@.len(),
            find_crlf(buffer@, i + 1) == find_crlf(buffer@, k as int),
            *index as int == i,
        decreases buffer@.len() - k,
    {
        k = k + 1;
    }
    if k < buffer.len() {
        let content = vstd::slice::slice_to_vec(vstd::slice::slice_subrange(buffer, *index, k - 1));
        *index = k + 1;
        Ok(content)
    } else {
        *index = buffer.len();
        Err(RESPError::OutOfBounds(*index))
    }
}

/// Extract one line and decode it as text.
pub fn binary_extract_line_as_string(buffer: &[u8], index: &mut usize) -> (r: RESPResult<String>)
    ensures
        match r {
            Ok(s) => spec_extract_line_str(buffer@, *old(index) as int) == Ok::<
                (Seq<char>, int),
                (RESPError, int),
            >((s@, *final(index) as int)),
            Err(e) => spec_extract_line_str(buffer@, *old(index) as int) == Err::<
                (Seq<char>, int),
                (RESPError, int),
            >((e, *final(index) as int)),
        },
{
    let line = match binary_extract_line(buffer, index) {
        Ok(line) => line,
        Err(e) => {
            return Err(e);
        },
    };
    match bytes_into_string(line) {
        Some(s) => Ok(s),
        None => Err(RESPError::FromUtf8),
    }
}

/// Extract exactly `length` raw bytes and advance the cursor over them.
pub fn binary_extract_bytes(buffer: &[u8], index: &mut usize, length: usize) -> (r: RESPResult<
    Vec<u8>,
>)
    ensures
        match r {
            Ok(content) => spec_extract_bytes(buffer@, *old(index) as int, length as int) == Ok::<
                (Seq<u8>, int),
                (RESPError, int),
            >((content@, *final(index) as int)),
            Err(e) => spec_extract_bytes(buffer@, *old(index) as int, length as int) == Err::<
                (Seq<u8>, int),
                (RESPError, int),
            >((e, *final(index) as int)),
        },
{
    if *index >= buffer.len() || length >= buffer.len() - *index {
        return Err(RESPError::OutOfBounds(buffer.len()));
    }
    let content = vstd::slice::slice_to_vec(
        vstd::slice::slice_subrange(buffer, *index, *index + length),
    );
    *index = *index + length;
    Ok(content)
}

/// Consume the leading type byte, which must be `value`.
pub fn resp_remove_type(value: char, buffer: &[u8], index: &mut usize) -> (r: RESPResult<()>)
    ensures
        match r {
            Ok(_) => spec_remove_type(value as u8, buffer@, *old(index) as int) == Ok::<
                int,
                (RESPError, int),
            >(*final(index) as int),
            Err(e) => spec_remove_type(value as u8, buffer@, *old(index) as int) == Err::<
                int,
                (RESPError, int),
            >((e, *final(index) as int)),
        },
{
    if *index >= buffer.len() {
        return Err(RESPError::OutOfBounds(*index));
    }
    if buffer[*index] != value as u8 {
        return Err(RESPError::WrongType);
    }
    *index = *index + 1;
    Ok(())
}

/// Parse a whole digit line as a signed 32-bit length, as `str::parse` does.
#[verifier::loop_isolation(false)]
pub fn parse_length_digits(line: &Vec<u8>) -> (r: Option<RESPLength>)
    ensures
        r == spec_parse_i32(line@),
{
    let n = line.len();
    if n == 0 {
        return None;
    }
    let has_sign: bool = line[0] == 43 || line[0] == 45;
    let negative: bool = line[0] == 45;
    let start: usize = if has_sign {
        1
    } else {
        0
    };
    let ghost mag = line@.subrange(start as int, n as int);
    proof {
        if start == 0 {
            assert(mag =~= line@);
        }
    }
    if n == start {
        return None;
    }
    let mut val: u64 = 0;
    let mut idx: usize = start;
    while idx < n
        invariant
            start <= idx <= n,
            n == line@.len(),
            start < n,
            mag == line@.subrange(start as int, n as int),
            all_digits(line@.subrange(start as int, idx as int)),
            val == digits_value(line@.subrange(start as int, idx as int)),
            val <= 0x8000_0000,
        decreases n - idx,
    {
        let b = line[idx];
        if b < 48 || b > 57 {
            proof {
                assert(mag[idx - start] == line@[idx as int]);
                assert(!all_digits(mag));
            }
            return None;
        }
        let d = (b - 48) as u64;
        let nv = val * 10 + d;
        proof {
            let pref = line@.subrange(start as int, idx as int);
            let pref2 = line@.subrange(start as int, idx as int + 1);
            assert(pref2.drop_last() =~= pref);
            assert(pref2.last() == line@[idx as int]);
            assert(digits_value(pref2) == digits_value(pref) * 10 + (b - 48));
        }
        if nv > 0x8000_0000 {
            proof {
                if all_digits(mag) {
                    let pref2 = line@.subrange(start as int, idx as int + 1);
                    assert(mag.take(idx - start + 1) =~= pref2);
                    lemma_digits_value_monotone(mag, idx - start + 1);
                }
            }
            return None;
        }
        val = nv;
        idx = idx + 1;
    }
    proof {
        assert(line@.subrange(start as int, idx as int) =~= mag);
    }
    if negative {
        let out: i64 = -(val as i64);
        Some(out as i32)
    } else {
        if val > 0x7fff_ffff {
            return None;
        }
        Some(val as i32)
    }
}

/// Extract a length line: one line of text parsed as a signed 32-bit number.
pub fn resp_extract_length(buffer: &[u8], index: &mut usize) -> (r: RESPResult<RESPLength>)
    ensures
        match r {
            Ok(n) => spec_extract_length(buffer@, *old(index) as int) == Ok::<
                (i32, int),
                (RESPError, int),
            >((n, *final(index) as int)),
            Err(e) => spec_extract_length(buffer@, *old(index) as int) == Err::<
                (i32, int),
                (RESPError, int),
            >((e, *final(index) as int)),
        },
{
    let line = match binary_extract_line(buffer, index) {
        Ok(line) => line,
        Err(e) => {
            return Err(e);
        },
    };
    let digits = vstd::slice::slice_to_vec(line.as_slice());
    if bytes_into_string(line).is_none() {
        return Err(RESPError::FromUtf8);
    }
    match parse_length_digits(&digits) {
        Some(n) => Ok(n),
        None => Err(RESPError::ParseInt),
    }
}

// ---------------------------------------------------------------------------
// Value parsers
// ---------------------------------------------------------------------------
/// Parse a simple string of the form `+VALUE` and a line terminator.
pub fn parse_simple_string(buffer: &[u8], index: &mut usize) -> (r: RESPResult<RESP>)
    ensures
        match r {
            Ok(v) => spec_parse_simple_string(buffer@, *old(index) as int) == Ok::<
                (RespVal, int),
                (RESPError, int),
            >((v@, *final(index) as int)),
            Err(e) => spec_parse_simple_string(buffer@, *old(index) as int) == Err::<
                (RespVal, int),
                (RESPError, int),
            >((e, *final(index) as int)),
        },
{
    match resp_remove_type('+', buffer, index) {
        Ok(_) => {},
        Err(e) => {
            return Err(e);
        },
    }
    match binary_extract_line_as_string(buffer, index) {
        Ok(line) => Ok(RESP::SimpleString(line)),
        Err(e) => Err(e),
    }
}

/// Parse a bulk string of the form `$LENGTH`, a line terminator, and that
/// many bytes of text; the length `-1` stands for the null value.
pub fn parse_bulk_string(buffer: &[u8], index: &mut usize) -> (r: RESPResult<RESP>)
    requires
        buffer@.len() < usize::MAX,
    ensures
        match r {
            Ok(v) => spec_parse_bulk_string(buffer@, *old(index) as int) == Ok::<
                (RespVal, int),
                (RESPError, int),
            >((v@, *final(index) as int)),
            Err(e) => spec_parse_bulk_string(buffer@, *old(index) as int) == Err::<
                (RespVal, int),
                (RESPError, int),
            >((e, *final(index) as int)),
        },
{
    match resp_remove_type('$', buffer, index) {
        Ok(_) => {},
        Err(e) => {
            return Err(e);
        },
    }
    let length = match resp_extract_length(buffer, index) {
        Ok(n) => n,
        Err(e) => {
            return Err(e);
        },
    };
    if length == -1 {
        return Ok(RESP::Null);
    }
    if length < -1 {
        return Err(RESPError::IncorrectLength(length));
    }
    let content = match binary_extract_bytes(buffer, index, length as usize) {
        Ok(c) => c,
        Err(e) => {
            return Err(e);
        },
    };
    let data = match bytes_into_string(content) {
        Some(s) => s,
        None => {
            return Err(RESPError::FromUtf8);
        },
    };
    // skip the line terminator after the content
    *index = *index + 2;
    Ok(RESP::BulkString(data))
}

/// Parse an array of the form `*COUNT`, a line terminator, and that many
/// nested values, each dispatched on its own type byte.
#[verifier::loop_isolation(false)]
pub fn parse_array(buffer: &[u8], index: &mut usize) -> (r: RESPResult<RESP>)
    requires
        buffer@.len() < usize::MAX,
    ensures
        match r {
            Ok(v) => spec_parse_array(buffer@, *old(index) as int) == Ok::<
                (RespVal, int),
                (RESPError, int),
            >((v@, *final(index) as int)),
            Err(e) => spec_parse_array(buffer@, *old(index) as int) == Err::<
                (RespVal, int),
                (RESPError, int),
            >((e, *final(index) as int)),
        },
    decreases remaining(buffer@, *index as int), 0int,
{
    let ghost i0 = *index as int;
    match resp_remove_type('*', buffer, index) {
        Ok(_) => {},
        Err(e) => {
            return Err(e);
        },
    }
    let length = match resp_extract_length(buffer, index) {
        Ok(n) => n,
        Err(e) => {
            return Err(e);
        },
    };
    if length < 0 {
        return Err(RESPError::IncorrectLength(length));
    }
    proof {
        if let Ok((line, j)) = spec_extract_line(buffer@, i0 + 1) {
            lemma_extract_line_ok(buffer@, i0 + 1, line, j);
        }
    }
    let ghost jhdr = *index as int;
    let ghost n_total = length as int;
    let mut data: Vec<RESP> = Vec::new();
    let mut count: i32 = 0;
    proof {
        if let Ok((rest, jf)) = spec_decode_elems(buffer@, jhdr, n_total) {
            assert(resp_seq_view(data@) + rest =~= rest);
        }
    }
    while count < length
        invariant
            0 <= count <= length,
            i0 < jhdr <= *index as int,
            match spec_decode_elems(buffer@, *index as int, n_total - count) {
                Ok((rest, jf)) => spec_decode_elems(buffer@, jhdr, n_total) == Ok::<
                    (Seq<RespVal>, int),
                    (RESPError, int),
                >((resp_seq_view(data@) + rest, jf)),
                Err(e) => spec_decode_elems(buffer@, jhdr, n_total) == Err::<
                    (Seq<RespVal>, int),
                    (RESPError, int),
                >(e),
            },
        decreases length - count,
    {
        let ghost cur = *index as int;
        let element = match bytes_to_resp(buffer, index) {
            Ok(v) => v,
            Err(e) => {
                return Err(e);
            },
        };
        proof {
            lemma_decode_advances(buffer@, cur, element@, *index as int);
            if let Ok((rest, jf)) = spec_decode_elems(buffer@, *index as int, n_total - count - 1) {
                assert(resp_seq_view(data@) + (seq![element@] + rest) =~= resp_seq_view(
                    data@.push(element),
                ) + rest) by {
                    assert(data@.push(element).drop_last() =~= data@);
                    assert(resp_seq_view(data@.push(element)) == resp_seq_view(data@).push(
                        element@,
                    ));
                }
            }
        }
        data.push(element);
        count = count + 1;
    }
    proof {
        assert(resp_seq_view(data@) + Seq::<RespVal>::empty() =~= resp_seq_view(data@));
    }
    Ok(RESP::Array(data))
}

/// Decode exactly one protocol value from `buffer` starting at `index`,
/// advancing the cursor over the bytes it consumed.
pub fn bytes_to_resp(buffer: &[u8], index: &mut usize) -> (r: RESPResult<RESP>)
    requires
        buffer@.len() < usize::MAX,
    ensures
        match r {
            Ok(v) => spec_decode(buffer@, *old(index) as int) == Ok::<
                (RespVal, int),
                (RESPError, int),
            >((v@, *final(index) as int)),
            Err(e) => spec_decode(buffer@, *old(index) as int) == Err::<
                (RespVal, int),
                (RESPError, int),
            >((e, *final(index) as int)),
        },
    decreases remaining(buffer@, *index as int), 1int,
{
    if *index >= buffer.len() {
        return Err(RESPError::OutOfBounds(*index));
    }
    let tag = buffer[*index];
    if tag == 43 {
        parse_simple_string(buffer, index)
    } else if tag == 36 {
        parse_bulk_string(buffer, index)
    } else if tag == 42 {
        parse_array(buffer, index)
    } else {
        Err(RESPError::Unknown)
    }
}

// ---------------------------------------------------------------------------
// Encoding
// ---------------------------------------------------------------------------
/// Append the decimal digits of `n` to `out`.
#[verifier::loop_isolation(false)]
fn push_dec_digits(out: &mut Vec<u8>, n: usize)
    ensures
        final(out)@ == old(out)@ + dec_digits(n as int),
{
    let mut digits: Vec<u8> = Vec::new();
    let mut cur: usize = n;
    proof {
        assert(dec_digits(n as int) + digits@ =~= dec_digits(n as int));
    }
    while cur >= 10
        invariant
            dec_digits(n as int) == dec_digits(cur as int) + digits@,
        decreases cur,
    {
        let ghost digits0 = digits@;
        let ghost cur0 = cur as int;
        let d = (cur % 10) as u8 + 48;
        digits.insert(0, d);
        cur = cur / 10;
        proof {
            assert(digits@ =~= seq![d] + digits0);
            assert(dec_digits(cur0) =~= dec_digits(cur0 / 10) + seq![d]);
            assert(dec_digits(cur0) + digits0 =~= dec_digits(cur as int) + digits@);
        }
    }
    let ghost digits0 = digits@;
    let d = cur as u8 + 48;
    digits.insert(0, d);
    proof {
        assert(dec_digits(cur as int) =~= seq![d]);
        assert(digits@ =~= seq![d] + digits0);
        assert(digits@ =~= dec_digits(n as int));
    }
    out.append(&mut digits);
}

impl RESP {
    /// Serialize this value to its wire encoding. Encoding is total: every
    /// value has exactly one encoding.
    #[verifier::loop_isolation(false)]
    pub fn encode(&self) -> (out: Vec<u8>)
        ensures
            out@ == encoding_of(self@),
        decreases *self,
    {
        match self {
            RESP::SimpleString(s) => {
                let mut out: Vec<u8> = Vec::new();
                out.push(43);
                let mut bytes = s.as_str().as_bytes_vec();
                out.append(&mut bytes);
                out.push(13);
                out.push(10);
                proof {
                    assert(out@ =~= seq![43u8] + vstd::utf8::encode_utf8(s@) + crlf());
                }
                out
            },
            RESP::BulkString(s) => {
                let mut out: Vec<u8> = Vec::new();
                out.push(36);
                let mut bytes = s.as_str().as_bytes_vec();
                push_dec_digits(&mut out, bytes.len());
                out.push(13);
                out.push(10);
                out.append(&mut bytes);
                out.push(13);
                out.push(10);
                proof {
                    assert(out@ =~= seq![36u8] + dec_digits(
                        vstd::utf8::encode_utf8(s@).len() as int,
                    ) + crlf() + vstd::utf8::encode_utf8(s@) + crlf());
                }
                out
            },
            RESP::Null => {
                let mut out: Vec<u8> = Vec::new();
                out.push(36);
                out.push(45);
                out.push(49);
                out.push(13);
                out.push(10);
                proof {
                    assert(out@ =~= null_encoding());
                }
                out
            },
            RESP::Array(elems) => {
                let mut out: Vec<u8> = Vec::new();
                out.push(42);
                push_dec_digits(&mut out, elems.len());
                out.push(13);
                out.push(10);
                let ghost header = out@;
                proof {
                    assert(encoding_of_seq(resp_seq_view(elems@.take(0))) =~= Seq::<u8>::empty());
                    assert(out@ =~= header + encoding_of_seq(resp_seq_view(elems@.take(0))));
                }
                let mut i: usize = 0;
                while i < elems.len()
                    invariant
                        i <= elems@.len(),
                        out@ == header + encoding_of_seq(resp_seq_view(elems@.take(i as int))),
                    decreases elems@.len() - i,
                {
                    let mut piece = elems[i].encode();
                    out.append(&mut piece);
                    i = i + 1;
                    proof {
                        let w = resp_seq_view(elems@.take(i as int));
                        assert(elems@.take(i as int).drop_last() =~= elems@.take(i as int - 1));
                        assert(w == resp_seq_view(elems@.take(i as int - 1)).push(
                            resp_view(elems@[i as int - 1]),
                        ));
                        lemma_encoding_of_seq_push(
                            resp_seq_view(elems@.take(i as int - 1)),
                            resp_view(elems@[i as int - 1]),
                        );
                        assert(out@ =~= header + encoding_of_seq(w));
                    }
                }
                proof {
                    lemma_resp_seq_view(elems@);
                    assert(elems@.take(elems@.len() as int) =~= elems@);
                    assert(out@ =~= header + encoding_of_seq(resp_seq_view(elems@)));
                    assert(header + encoding_of_seq(resp_seq_view(elems@)) =~= seq![42u8]
                        + dec_digits(elems@.len() as int) + crlf() + encoding_of_seq(
                        resp_seq_view(elems@),
                    ));
                }
                out
            },
        }
    }
}

} // verus!
