//! The mathematical description of the wire format: what the encoder emits
//! and what the streaming decoder yields from a byte buffer and a cursor.
use vstd::prelude::*;
use vstd::utf8::{decode_utf8, encode_utf8, valid_utf8};

use crate::resp::RespVal;
use crate::resp_result::RESPError;

verus! {

pub const CR: u8 = 13;

pub const LF: u8 = 10;

/// The two-byte line terminator.
pub open spec fn crlf() -> Seq<u8> {
    seq![CR, LF]
}

/// Bytes remaining in `buf` from cursor `i`, never negative.
pub open spec fn remaining(buf: Seq<u8>, i: int) -> int {
    if i <= buf.len() {
        buf.len() - i
    } else {
        0
    }
}

// ---------------------------------------------------------------------------
// Decimal digits
// ---------------------------------------------------------------------------
pub open spec fn is_digit(b: u8) -> bool {
    48 <= b <= 57
}

/// The decimal digits of a nonnegative number, most significant first.
pub open spec fn dec_digits(n: int) -> Seq<u8>
    recommends
        n >= 0,
    decreases n,
{
    if n < 10 {
        seq![(48 + n) as u8]
    } else {
        dec_digits(n / 10).push((48 + n % 10) as u8)
    }
}

/// The value of a digit string, most significant first.
pub open spec fn digits_value(s: Seq<u8>) -> int
    decreases s.len(),
{
    if s.len() == 0 {
        0
    } else {
        digits_value(s.drop_last()) * 10 + (s.last() - 48)
    }
}

pub open spec fn all_digits(s: Seq<u8>) -> bool {
    forall|j: int| 0 <= j < s.len() ==> is_digit(#[trigger] s[j])
}

/// What `str::parse::<i32>` accepts: an optional sign, then at least one
/// ASCII digit, with the value in range of the type.
pub open spec fn spec_parse_i32(s: Seq<u8>) -> Option<i32> {
    if s.len() > 0 && (s[0] == 43 || s[0] == 45) {
        let mag = s.subrange(1, s.len() as int);
        if mag.len() > 0 && all_digits(mag) {
            let v = if s[0] == 45 {
                -digits_value(mag)
            } else {
                digits_value(mag)
            };
            if i32::MIN <= v <= i32::MAX {
                Some(v as i32)
            } else {
                None
            }
        } else {
            None
        }
    } else if s.len() > 0 && all_digits(s) {
        if digits_value(s) <= i32::MAX {
            Some(digits_value(s) as i32)
        } else {
            None
        }
    } else {
        None
    }
}

// ---------------------------------------------------------------------------
// Encoding
// ---------------------------------------------------------------------------
/// The encoding of the null value, `$-1` and a line terminator.
pub open spec fn null_encoding() -> Seq<u8> {
    seq![36u8, 45u8, 49u8, CR, LF]
}

/// The byte encoding of a protocol value.
pub open spec fn encoding_of(v: RespVal) -> Seq<u8>
    decreases v,
{
    match v {
        RespVal::SimpleString(s) => seq![43u8] + encode_utf8(s) + crlf(),
        RespVal::BulkString(s) => seq![36u8] + dec_digits(encode_utf8(s).len() as int) + crlf()
            + encode_utf8(s) + crlf(),
        RespVal::Null => null_encoding(),
        RespVal::Array(elems) => seq![42u8] + dec_digits(elems.len() as int) + crlf()
            + encoding_of_seq(elems),
    }
}

/// The concatenated encodings of a sequence of protocol values.
pub open spec fn encoding_of_seq(elems: Seq<RespVal>) -> Seq<u8>
    decreases elems,
{
    if elems.len() == 0 {
        Seq::empty()
    } else {
        encoding_of_seq(elems.drop_last()) + encoding_of(elems.last())
    }
}

/// Appending one value to a sequence appends its encoding.
pub proof fn lemma_encoding_of_seq_push(w: Seq<RespVal>, v: RespVal)
    ensures
        encoding_of_seq(w.push(v)) == encoding_of_seq(w) + encoding_of(v),
{
    assert(w.push(v).drop_last() =~= w);
    assert(w.push(v).last() == v);
}

// ---------------------------------------------------------------------------
// Decoding
// ---------------------------------------------------------------------------
/// The first position `k >= start` at which `buf[k - 1]` and `buf[k]` form a
/// line terminator; `buf.len()` if there is none.
pub open spec fn find_crlf(buf: Seq<u8>, k: int) -> int
    recommends
        k >= 1,
    decreases remaining(buf, k),
{
    if k >= buf.len() {
        buf.len() as int
    } else if buf[k] == LF && buf[k - 1] == CR {
        k
    } else {
        find_crlf(buf, k + 1)
    }
}

/// Scanning one line from cursor `i`: the content before the first line
/// terminator and the cursor just past it, or an out-of-bounds failure with
/// the cursor position it leaves behind.
pub open spec fn spec_extract_line(buf: Seq<u8>, i: int) -> Result<
    (Seq<u8>, int),
    (RESPError, int),
> {
    if i >= buf.len() {
        Err((RESPError::OutOfBounds(i as usize), i))
    } else if buf.len() - i < 3 {
        Err((RESPError::OutOfBounds(buf.len() as usize), buf.len() as int))
    } else {
        let k = find_crlf(buf, i + 1);
        if k < buf.len() {
            Ok((buf.subrange(i, k - 1), k + 1))
        } else {
            Err((RESPError::OutOfBounds(buf.len() as usize), buf.len() as int))
        }
    }
}

/// One line decoded as text: a UTF-8 failure keeps the cursor past the line.
pub open spec fn spec_extract_line_str(buf: Seq<u8>, i: int) -> Result<
    (Seq<char>, int),
    (RESPError, int),
> {
    match spec_extract_line(buf, i) {
        Ok((line, j)) => if valid_utf8(line) {
            Ok((decode_utf8(line), j))
        } else {
            Err((RESPError::FromUtf8, j))
        },
        Err(e) => Err(e),
    }
}

/// Reading `length` raw bytes from cursor `i`; the buffer must go on past
/// them, else the cursor stays and the failure carries the buffer length.
pub open spec fn spec_extract_bytes(buf: Seq<u8>, i: int, length: int) -> Result<
    (Seq<u8>, int),
    (RESPError, int),
> {
    if i + length >= buf.len() {
        Err((RESPError::OutOfBounds(buf.len() as usize), i))
    } else {
        Ok((buf.subrange(i, i + length), i + length))
    }
}

/// Consuming the leading type byte `t` at cursor `i`.
pub open spec fn spec_remove_type(t: u8, buf: Seq<u8>, i: int) -> Result<int, (RESPError, int)> {
    if i >= buf.len() {
        Err((RESPError::OutOfBounds(i as usize), i))
    } else if buf[i] != t {
        Err((RESPError::WrongType, i))
    } else {
        Ok(i + 1)
    }
}

/// Reading a length line at cursor `i`: the line bytes must be text that
/// parses as a signed 32-bit number.
pub open spec fn spec_extract_length(buf: Seq<u8>, i: int) -> Result<
    (i32, int),
    (RESPError, int),
> {
    match spec_extract_line(buf, i) {
        Ok((line, j)) => if !valid_utf8(line) {
            Err((RESPError::FromUtf8, j))
        } else {
            match spec_parse_i32(line) {
                Some(n) => Ok((n, j)),
                None => Err((RESPError::ParseInt, j)),
            }
        },
        Err(e) => Err(e),
    }
}

/// A simple string: `+`, one line of text.
pub open spec fn spec_parse_simple_string(buf: Seq<u8>, i: int) -> Result<
    (RespVal, int),
    (RESPError, int),
> {
    match spec_remove_type(43u8, buf, i) {
        Err(e) => Err(e),
        Ok(j) => match spec_extract_line_str(buf, j) {
            Ok((text, j2)) => Ok((RespVal::SimpleString(text), j2)),
            Err(e) => Err(e),
        },
    }
}

/// A bulk string: `$`, a length line, then exactly that many bytes of text
/// and a line terminator (skipped unchecked). The length `-1` is the null
/// value; any other negative length is malformed.
pub open spec fn spec_parse_bulk_string(buf: Seq<u8>, i: int) -> Result<
    (RespVal, int),
    (RESPError, int),
> {
    match spec_remove_type(36u8, buf, i) {
        Err(e) => Err(e),
        Ok(j) => match spec_extract_length(buf, j) {
            Err(e) => Err(e),
            Ok((n, j2)) => if n == -1 {
                Ok((RespVal::Null, j2))
            } else if n < -1 {
                Err((RESPError::IncorrectLength(n), j2))
            } else {
                match spec_extract_bytes(buf, j2, n as int) {
                    Err(e) => Err(e),
                    Ok((content, j3)) => if valid_utf8(content) {
                        Ok((RespVal::BulkString(decode_utf8(content)), j3 + 2))
                    } else {
                        Err((RESPError::FromUtf8, j3))
                    },
                }
            },
        },
    }
}

/// One complete protocol value at cursor `i`, dispatched on the type byte.
pub open spec fn spec_decode(buf: Seq<u8>, i: int) -> Result<(RespVal, int), (RESPError, int)>
    decreases remaining(buf, i), 1int,
{
    if i >= buf.len() {
        Err((RESPError::OutOfBounds(i as usize), i))
    } else if buf[i] == 43 {
        spec_parse_simple_string(buf, i)
    } else if buf[i] == 36 {
        spec_parse_bulk_string(buf, i)
    } else if buf[i] == 42 {
        spec_parse_array(buf, i)
    } else {
        Err((RESPError::Unknown, i))
    }
}

/// An array: `*`, a nonnegative length line, then that many values.
pub open spec fn spec_parse_array(buf: Seq<u8>, i: int) -> Result<(RespVal, int), (RESPError, int)>
    decreases remaining(buf, i), 0int,
{
    match spec_remove_type(42u8, buf, i) {
        Err(e) => Err(e),
        Ok(j) => match spec_extract_length(buf, j) {
            Err(e) => Err(e),
            Ok((n, j2)) => if n < 0 {
                Err((RESPError::IncorrectLength(n), j2))
            } else if j2 <= i {
                // a length line occupies at least three bytes, so this
                // branch is never reached; it keeps the recursion founded
                Err((RESPError::Unknown, j2))
            } else {
                match spec_decode_elems(buf, j2, n as int) {
                    Ok((elems, j3)) => Ok((RespVal::Array(elems), j3)),
                    Err(e) => Err(e),
                }
            },
        },
    }
}

/// `n` consecutive values from cursor `i`, propagating the first failure.
pub open spec fn spec_decode_elems(buf: Seq<u8>, i: int, n: int) -> Result<
    (Seq<RespVal>, int),
    (RESPError, int),
>
    decreases remaining(buf, i), 2int,
{
    if n <= 0 {
        Ok((Seq::empty(), i))
    } else if i >= buf.len() {
        Err((RESPError::OutOfBounds(i as usize), i))
    } else {
        match spec_decode(buf, i) {
            Err(e) => Err(e),
            Ok((v, j)) => if j <= i {
                // a decoded value consumes at least one byte, so this branch
                // is never reached; it keeps the recursion founded
                Err((RESPError::Unknown, j))
            } else {
                match spec_decode_elems(buf, j, n - 1) {
                    Ok((rest, j2)) => Ok((seq![v] + rest, j2)),
                    Err(e) => Err(e),
                }
            },
        }
    }
}

// ---------------------------------------------------------------------------
// Basic facts about the decoder
// ---------------------------------------------------------------------------
/// Where the line-terminator scan stops: at the first terminator pair after
/// `m`, or at the end of the buffer when there is none.
pub proof fn lemma_find_crlf(buf: Seq<u8>, m: int)
    requires
        1 <= m <= buf.len(),
    ensures
        m <= find_crlf(buf, m) <= buf.len(),
        find_crlf(buf, m) < buf.len() ==> buf[find_crlf(buf, m)] == LF && buf[find_crlf(buf, m)
            - 1] == CR,
        forall|j: int|
            m <= j < find_crlf(buf, m) ==> !(#[trigger] buf[j] == LF && buf[j - 1] == CR),
    decreases remaining(buf, m),
{
    if m < buf.len() && !(buf[m] == LF && buf[m - 1] == CR) {
        lemma_find_crlf(buf, m + 1);
    }
}

/// A successfully extracted line sits just before its terminator and holds
/// no terminator pair of its own.
pub proof fn lemma_extract_line_ok(buf: Seq<u8>, i: int, line: Seq<u8>, j: int)
    requires
        0 <= i,
        spec_extract_line(buf, i) == Ok::<(Seq<u8>, int), (RESPError, int)>((line, j)),
    ensures
        i + 2 <= j <= buf.len(),
        line =~= buf.subrange(i, j - 2),
        buf[j - 2] == CR && buf[j - 1] == LF,
        forall|p: int| 0 < p < line.len() ==> !(#[trigger] line[p] == LF && line[p - 1] == CR),
{
    lemma_find_crlf(buf, i + 1);
    let k = find_crlf(buf, i + 1);
    assert forall|p: int| 0 < p < line.len() implies !(#[trigger] line[p] == LF && line[p - 1] == CR) by {
        assert(line[p] == buf[i + p] && line[p - 1] == buf[i + p - 1]);
        assert(!(buf[i + p] == LF && buf[i + p - 1] == CR));
    }
}

/// The decimal digits of a number in range re-parse to that number.
pub proof fn lemma_digits_round_trip(n: int)
    requires
        0 <= n <= i32::MAX,
    ensures
        dec_digits(n).len() >= 1,
        all_digits(dec_digits(n)),
        digits_value(dec_digits(n)) == n,
        spec_parse_i32(dec_digits(n)) == Some(n as i32),
{
    lemma_dec_digits(n);
    assert(dec_digits(n)[0] != 43 && dec_digits(n)[0] != 45);
}

/// Digit strings built by `dec_digits` are nonempty digit text with the
/// stated value.
pub proof fn lemma_dec_digits(n: int)
    requires
        0 <= n,
    ensures
        dec_digits(n).len() >= 1,
        all_digits(dec_digits(n)),
        digits_value(dec_digits(n)) == n,
    decreases n,
{
    if n >= 10 {
        lemma_dec_digits(n / 10);
        vstd::arithmetic::div_mod::lemma_fundamental_div_mod(n, 10);
        let d = dec_digits(n);
        assert(d.drop_last() =~= dec_digits(n / 10));
        assert(digits_value(d) == digits_value(d.drop_last()) * 10 + (d.last() - 48));
        assert(digits_value(d.drop_last()) == n / 10);
        assert(d.last() == (48 + n % 10) as u8);
        assert(digits_value(d) == n);
        assert forall|j: int| 0 <= j < d.len() implies is_digit(#[trigger] d[j]) by {
            if j < d.len() - 1 {
                assert(d[j] == dec_digits(n / 10)[j]);
            }
        }
    } else {
        let d = dec_digits(n);
        assert(d.drop_last() =~= Seq::<u8>::empty());
        assert(digits_value(Seq::<u8>::empty()) == 0);
    }
}

/// A digit string has a nonnegative value.
pub proof fn lemma_digits_value_nonneg(s: Seq<u8>)
    requires
        all_digits(s),
    ensures
        digits_value(s) >= 0,
    decreases s.len(),
{
    if s.len() > 0 {
        assert(all_digits(s.drop_last()));
        lemma_digits_value_nonneg(s.drop_last());
    }
}

/// Extending a digit string never shrinks its value.
pub proof fn lemma_digits_value_monotone(s: Seq<u8>, m: int)
    requires
        all_digits(s),
        0 <= m <= s.len(),
    ensures
        digits_value(s) >= digits_value(s.take(m)),
    decreases s.len(),
{
    lemma_digits_value_nonneg(s);
    if m < s.len() {
        assert(all_digits(s.drop_last()));
        lemma_digits_value_monotone(s.drop_last(), m);
        lemma_digits_value_nonneg(s.drop_last());
        assert(s.drop_last().take(m) =~= s.take(m));
    } else {
        assert(s.take(m) =~= s);
    }
}

/// A successful decode always advances the cursor, by at most one byte past
/// the end of the buffer.
pub proof fn lemma_decode_advances(buf: Seq<u8>, i: int, v: RespVal, j: int)
    requires
        0 <= i,
        spec_decode(buf, i) == Ok::<(RespVal, int), (RESPError, int)>((v, j)),
    ensures
        i < j <= buf.len() + 1,
    decreases remaining(buf, i), 1int,
{
    if i < buf.len() {
        if buf[i] == 43 {
            if let Ok((line, j2)) = spec_extract_line(buf, i + 1) {
                lemma_extract_line_ok(buf, i + 1, line, j2);
            }
        } else if buf[i] == 36 {
            if let Ok((line, j2)) = spec_extract_line(buf, i + 1) {
                lemma_extract_line_ok(buf, i + 1, line, j2);
            }
        } else if buf[i] == 42 {
            lemma_parse_array_advances(buf, i, v, j);
        }
    }
}

/// As `lemma_decode_advances`, for the array parser.
pub proof fn lemma_parse_array_advances(buf: Seq<u8>, i: int, v: RespVal, j: int)
    requires
        0 <= i,
        spec_parse_array(buf, i) == Ok::<(RespVal, int), (RESPError, int)>((v, j)),
    ensures
        i < j <= buf.len() + 1,
    decreases remaining(buf, i), 0int,
{
    if let Ok(j1) = spec_remove_type(42u8, buf, i) {
        if let Ok((line, j2)) = spec_extract_line(buf, j1) {
            lemma_extract_line_ok(buf, j1, line, j2);
            if let Ok((n, j2b)) = spec_extract_length(buf, j1) {
                if n >= 0 && j2b > i {
                    if let Ok((elems, j3)) = spec_decode_elems(buf, j2b, n as int) {
                        lemma_decode_elems_advances(buf, j2b, n as int, elems, j3);
                    }
                }
            }
        }
    }
}

/// As `lemma_decode_advances`, for element sequences: the cursor never moves
/// backwards.
pub proof fn lemma_decode_elems_advances(buf: Seq<u8>, i: int, n: int, elems: Seq<RespVal>, j: int)
    requires
        0 <= i,
        spec_decode_elems(buf, i, n) == Ok::<(Seq<RespVal>, int), (RESPError, int)>((elems, j)),
    ensures
        i <= j <= vstd::math::max(i, buf.len() as int + 1),
        elems.len() == n || n < 0,
    decreases remaining(buf, i), 2int,
{
    if n > 0 && i < buf.len() {
        if let Ok((v, j1)) = spec_decode(buf, i) {
            lemma_decode_advances(buf, i, v, j1);
            if j1 > i {
                if let Ok((rest, j2)) = spec_decode_elems(buf, j1, n - 1) {
                    lemma_decode_elems_advances(buf, j1, n - 1, rest, j2);
                }
            }
        }
    }
}

} // verus!
