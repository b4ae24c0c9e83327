//! The codec's round-trip law: a decoded value re-decodes from its own
//! encoding, consuming exactly the encoded bytes.
use vstd::prelude::*;
use vstd::utf8::{decode_utf8, encode_utf8, valid_utf8};

use crate::resp::RespVal;
use crate::resp_result::RESPError;
use crate::resp_spec::{
    all_digits, crlf, dec_digits, digits_value, encoding_of, encoding_of_seq, find_crlf,
    lemma_digits_round_trip, lemma_extract_line_ok, remaining, spec_decode, spec_decode_elems,
    spec_extract_bytes, spec_extract_length, spec_extract_line, spec_parse_array,
    spec_parse_i32, spec_remove_type, CR, LF,
};

verus! {

broadcast use vstd::seq::group_seq_axioms, vstd::utf8::encode_utf8_valid_utf8, vstd::utf8::encode_utf8_decode_utf8, vstd::utf8::decode_utf8_encode_utf8;

/// The byte string holds no line terminator pair.
pub open spec fn no_crlf(b: Seq<u8>) -> bool {
    forall|p: int| 0 < p < b.len() ==> !(#[trigger] b[p] == LF && b[p - 1] == CR)
}

/// A value that decodes from its own encoding. Line-terminated text must
/// hold no terminator of its own; lengths must fit the length header; and —
/// only when the value's encoding ends the buffer (`at_end`) — a simple
/// string must be nonempty, since the decoder refuses a line with nothing
/// after its terminator.
pub open spec fn rt_ok(v: RespVal, at_end: bool) -> bool
    decreases v,
{
    match v {
        RespVal::SimpleString(s) => no_crlf(encode_utf8(s)) && (at_end ==> s.len() > 0),
        RespVal::BulkString(s) => encode_utf8(s).len() <= i32::MAX,
        RespVal::Null => true,
        RespVal::Array(elems) => elems.len() <= i32::MAX && rt_ok_seq(elems, at_end),
    }
}

/// As `rt_ok` for each element in order; only the last can end the buffer.
pub open spec fn rt_ok_seq(elems: Seq<RespVal>, at_end: bool) -> bool
    decreases elems,
{
    if elems.len() == 0 {
        true
    } else {
        rt_ok(elems[0], at_end && elems.len() == 1) && rt_ok_seq(elems.drop_first(), at_end)
    }
}

/// The value's rightmost leaf is not an empty simple string.
pub open spec fn last_leaf_nonempty(v: RespVal) -> bool
    decreases v,
{
    match v {
        RespVal::SimpleString(s) => s.len() > 0,
        RespVal::Array(elems) => elems.len() == 0 || last_leaf_nonempty(elems.last()),
        _ => true,
    }
}

// ---------------------------------------------------------------------------
// Small facts about encodings
// ---------------------------------------------------------------------------
/// A nonempty text has a nonempty encoding of at least its character count.
pub proof fn lemma_encode_utf8_len(s: Seq<char>)
    ensures
        encode_utf8(s).len() >= s.len(),
    decreases s.len(),
{
    if s.len() > 0 {
        lemma_encode_utf8_len(s.drop_first());
    }
}

/// Every value's encoding holds at least the type byte and a terminator.
pub proof fn lemma_encoding_len(v: RespVal)
    ensures
        encoding_of(v).len() >= 3,
    decreases v, 0int,
{
    match v {
        RespVal::BulkString(s) => {
            crate::resp_spec::lemma_dec_digits(encode_utf8(s).len() as int);
        },
        RespVal::Array(elems) => {
            crate::resp_spec::lemma_dec_digits(elems.len() as int);
            lemma_encoding_of_seq_len(elems);
        },
        _ => {},
    }
}

/// Concatenated encodings never have negative length; with at least one
/// element they hold at least one whole encoding.
pub proof fn lemma_encoding_of_seq_len(elems: Seq<RespVal>)
    ensures
        encoding_of_seq(elems).len() >= 0,
        elems.len() > 0 ==> encoding_of_seq(elems).len() >= 3,
    decreases elems, 1int,
{
    if elems.len() > 0 {
        lemma_encoding_of_seq_len(elems.drop_last());
        lemma_encoding_len(elems.last());
    }
}

/// The concatenated encodings, split at the first element.
pub proof fn lemma_encoding_of_seq_first(elems: Seq<RespVal>)
    requires
        elems.len() > 0,
    ensures
        encoding_of_seq(elems) == encoding_of(elems[0]) + encoding_of_seq(elems.drop_first()),
    decreases elems,
{
    if elems.len() == 1 {
        assert(elems.drop_last() =~= Seq::<RespVal>::empty());
        assert(elems.drop_first() =~= Seq::<RespVal>::empty());
        assert(encoding_of_seq(elems) == encoding_of_seq(Seq::<RespVal>::empty()) + encoding_of(
            elems.last(),
        ));
        assert(encoding_of_seq(Seq::<RespVal>::empty()) + encoding_of(elems[0]) =~= encoding_of(
            elems[0],
        ) + encoding_of_seq(Seq::<RespVal>::empty()));
    } else {
        let dl = elems.drop_last();
        lemma_encoding_of_seq_first(dl);
        assert(dl[0] == elems[0]);
        let df = elems.drop_first();
        assert(df.drop_last() =~= dl.drop_first());
        assert(df.last() == elems.last());
        assert(encoding_of_seq(df) == encoding_of_seq(dl.drop_first()) + encoding_of(elems.last()));
        assert(encoding_of_seq(elems) == (encoding_of(elems[0]) + encoding_of_seq(dl.drop_first()))
            + encoding_of(elems.last()));
        assert((encoding_of(elems[0]) + encoding_of_seq(dl.drop_first())) + encoding_of(
            elems.last(),
        ) =~= encoding_of(elems[0]) + (encoding_of_seq(dl.drop_first()) + encoding_of(
            elems.last(),
        )));
    }
}

// ---------------------------------------------------------------------------
// Byte-region helpers
// ---------------------------------------------------------------------------
/// A region equality gives byte-by-byte facts.
pub proof fn lemma_region_index(buf: Seq<u8>, i: int, region: Seq<u8>)
    requires
        0 <= i,
        i + region.len() <= buf.len(),
        buf.subrange(i, i + region.len()) == region,
    ensures
        forall|p: int| 0 <= p < region.len() ==> buf[i + p] == #[trigger] region[p],
{
    assert forall|p: int| 0 <= p < region.len() implies buf[i + p] == #[trigger] region[p] by {
        assert(region[p] == buf.subrange(i, i + region.len())[p]);
    }
}

/// A stretch of a region is itself a region.
pub proof fn lemma_subregion(buf: Seq<u8>, i: int, enc: Seq<u8>, a: int, sub: Seq<u8>)
    requires
        0 <= i,
        i + enc.len() <= buf.len(),
        buf.subrange(i, i + enc.len()) == enc,
        0 <= a,
        a + sub.len() <= enc.len(),
        forall|p: int| 0 <= p < sub.len() ==> enc[a + p] == #[trigger] sub[p],
    ensures
        buf.subrange(i + a, i + a + sub.len()) == sub,
{
    lemma_region_index(buf, i, enc);
    assert forall|p: int| 0 <= p < sub.len() implies buf.subrange(i + a, i + a + sub.len())[p]
        == sub[p] by {
        assert(buf[i + (a + p)] == enc[a + p]);
    }
    assert(buf.subrange(i + a, i + a + sub.len()) =~= sub);
}

/// The scan stops exactly at a terminator that no earlier pair precedes.
pub proof fn lemma_find_crlf_exact(buf: Seq<u8>, m: int, k: int)
    requires
        1 <= m <= k < buf.len(),
        buf[k] == LF,
        buf[k - 1] == CR,
        forall|j: int| m <= j < k ==> !(#[trigger] buf[j] == LF && buf[j - 1] == CR),
    ensures
        find_crlf(buf, m) == k,
    decreases k - m,
{
    if m < k {
        lemma_find_crlf_exact(buf, m + 1, k);
    }
}

/// A buffer region holding `content` and a terminator is scanned as exactly
/// that line. The line may be empty only if the buffer goes on past it.
pub proof fn lemma_extract_line_of_region(buf: Seq<u8>, i: int, content: Seq<u8>)
    requires
        1 <= i,
        i + content.len() + 2 <= buf.len(),
        buf.subrange(i, i + content.len() + 2) == content + crlf(),
        no_crlf(content),
        content.len() > 0 || i + content.len() + 2 < buf.len(),
    ensures
        spec_extract_line(buf, i) == Ok::<(Seq<u8>, int), (RESPError, int)>(
            (content, i + content.len() + 2),
        ),
{
    let clen = content.len() as int;
    let kstar = i + clen + 1;
    lemma_region_index(buf, i, content + crlf());
    assert(buf[kstar] == LF) by {
        assert((content + crlf())[clen + 1] == LF);
    }
    assert(buf[kstar - 1] == CR) by {
        assert((content + crlf())[clen] == CR);
    }
    assert forall|j: int| i + 1 <= j < kstar implies !(#[trigger] buf[j] == LF && buf[j - 1]
        == CR) by {
        if j < i + clen {
            assert(buf[j] == (content + crlf())[j - i]);
            assert(buf[j - 1] == (content + crlf())[j - 1 - i]);
            assert((content + crlf())[j - i] == content[j - i]);
            assert((content + crlf())[j - 1 - i] == content[j - 1 - i]);
        } else {
            assert(buf[j] == (content + crlf())[clen]);
        }
    }
    lemma_find_crlf_exact(buf, i + 1, kstar);
    assert(buf.subrange(i, kstar - 1) =~= content);
}

/// A buffer region holding the digits of `n` and a terminator reads back as
/// the length `n`.
pub proof fn lemma_extract_length_of_region(buf: Seq<u8>, i: int, n: int)
    requires
        1 <= i,
        0 <= n <= i32::MAX,
        i + dec_digits(n).len() + 2 <= buf.len(),
        buf.subrange(i, i + dec_digits(n).len() + 2) == dec_digits(n) + crlf(),
    ensures
        spec_extract_length(buf, i) == Ok::<(i32, int), (RESPError, int)>(
            (n as i32, i + dec_digits(n).len() + 2),
        ),
{
    lemma_digits_round_trip(n);
    let dd = dec_digits(n);
    assert(no_crlf(dd)) by {
        assert forall|p: int| 0 < p < dd.len() implies !(#[trigger] dd[p] == LF && dd[p - 1]
            == CR) by {
            assert(crate::resp_spec::is_digit(dd[p]));
        }
    }
    lemma_extract_line_of_region(buf, i, dd);
    lemma_ascii_bytes_valid_utf8(dd);
}

/// The digit line of the null encoding parses as the sentinel `-1`.
proof fn lemma_parse_minus_one()
    ensures
        spec_parse_i32(seq![45u8, 49u8]) == Some(-1i32),
{
    let s = seq![45u8, 49u8];
    let mag = s.subrange(1, 2);
    assert(mag =~= seq![49u8]);
    assert(mag.drop_last() =~= Seq::<u8>::empty());
    assert(digits_value(Seq::<u8>::empty()) == 0);
    assert(digits_value(mag) == 1);
    assert(all_digits(mag));
}

// ---------------------------------------------------------------------------
// The encoding decodes
// ---------------------------------------------------------------------------
/// A buffer that holds the encoding of `v` from position `i` decodes to `v`
/// exactly, consuming the encoded bytes — provided a nonempty simple string
/// stands wherever the buffer ends.
pub proof fn lemma_encode_decodes(v: RespVal, buf: Seq<u8>, i: int)
    requires
        0 <= i,
        i + encoding_of(v).len() <= buf.len(),
        buf.subrange(i, i + encoding_of(v).len()) == encoding_of(v),
        rt_ok(v, i + encoding_of(v).len() == buf.len()),
    ensures
        spec_decode(buf, i) == Ok::<(RespVal, int), (RESPError, int)>(
            (v, i + encoding_of(v).len()),
        ),
    decreases v,
{
    let enc = encoding_of(v);
    let at_end = i + enc.len() == buf.len();
    lemma_encoding_len(v);
    lemma_region_index(buf, i, enc);
    match v {
        RespVal::SimpleString(s) => {
            let eu = encode_utf8(s);
            assert(buf[i] == 43) by {
                assert(enc[0] == 43);
            }
            let line = eu + crlf();
            assert forall|p: int| 0 <= p < line.len() implies enc[1 + p] == #[trigger] line[p] by {}
            lemma_subregion(buf, i, enc, 1, line);
            if at_end {
                lemma_encode_utf8_len(s);
            }
            lemma_extract_line_of_region(buf, i + 1, eu);
            assert(decode_utf8(eu) == s);
        },
        RespVal::Null => {
            assert(buf[i] == 36) by {
                assert(enc[0] == 36);
            }
            let line = seq![45u8, 49u8];
            let region = line + crlf();
            assert forall|p: int| 0 <= p < region.len() implies enc[1 + p] == #[trigger] region[p] by {}
            lemma_subregion(buf, i, enc, 1, region);
            assert(no_crlf(line));
            lemma_extract_line_of_region(buf, i + 1, line);
            lemma_ascii_bytes_valid_utf8(line);
            lemma_parse_minus_one();
        },
        RespVal::BulkString(s) => {
            let eu = encode_utf8(s);
            let blen = eu.len() as int;
            let dd = dec_digits(blen);
            assert(buf[i] == 36) by {
                assert(enc[0] == 36);
            }
            let header = dd + crlf();
            assert forall|p: int| 0 <= p < header.len() implies enc[1 + p] == #[trigger] header[p] by {}
            lemma_subregion(buf, i, enc, 1, header);
            lemma_extract_length_of_region(buf, i + 1, blen);
            let j2 = i + 1 + dd.len() + 2;
            assert forall|p: int| 0 <= p < eu.len() implies enc[1 + header.len() + p]
                == #[trigger] eu[p] by {}
            lemma_subregion(buf, i, enc, 1 + header.len() as int, eu);
            assert(j2 + blen < buf.len());
            assert(decode_utf8(eu) == s);
            assert(spec_extract_bytes(buf, j2, blen) == Ok::<(Seq<u8>, int), (RESPError, int)>(
                (eu, j2 + blen),
            ));
            assert(j2 + blen + 2 == i + enc.len());
        },
        RespVal::Array(elems) => {
            let n = elems.len() as int;
            let dd = dec_digits(n);
            let body = encoding_of_seq(elems);
            assert(buf[i] == 42) by {
                assert(enc[0] == 42);
            }
            let header = dd + crlf();
            assert forall|p: int| 0 <= p < header.len() implies enc[1 + p] == #[trigger] header[p] by {}
            lemma_subregion(buf, i, enc, 1, header);
            lemma_extract_length_of_region(buf, i + 1, n);
            let j2 = i + 1 + dd.len() + 2;
            assert forall|p: int| 0 <= p < body.len() implies enc[1 + header.len() + p]
                == #[trigger] body[p] by {}
            lemma_subregion(buf, i, enc, 1 + header.len() as int, body);
            assert(j2 + body.len() == i + enc.len());
            lemma_elems_decode(elems, buf, j2);
        },
    }
}

/// A buffer that holds the concatenated encodings of `elems` from position
/// `i` decodes as exactly those elements.
pub proof fn lemma_elems_decode(elems: Seq<RespVal>, buf: Seq<u8>, i: int)
    requires
        0 <= i,
        i + encoding_of_seq(elems).len() <= buf.len(),
        buf.subrange(i, i + encoding_of_seq(elems).len()) == encoding_of_seq(elems),
        rt_ok_seq(elems, i + encoding_of_seq(elems).len() == buf.len()),
    ensures
        spec_decode_elems(buf, i, elems.len() as int) == Ok::<
            (Seq<RespVal>, int),
            (RESPError, int),
        >((elems, i + encoding_of_seq(elems).len())),
    decreases elems,
{
    if elems.len() == 0 {
        assert(elems =~= Seq::<RespVal>::empty());
    } else {
        let e0 = elems[0];
        let rest = elems.drop_first();
        let enc0 = encoding_of(e0);
        let encr = encoding_of_seq(rest);
        lemma_encoding_of_seq_first(elems);
        lemma_encoding_len(e0);
        lemma_encoding_of_seq_len(rest);
        let total = encoding_of_seq(elems).len() as int;
        assert(total == enc0.len() + encr.len());
        assert(buf.subrange(i, i + enc0.len()) =~= enc0) by {
            lemma_region_index(buf, i, encoding_of_seq(elems));
            assert forall|p: int| 0 <= p < enc0.len() implies buf.subrange(i, i + enc0.len())[p]
                == enc0[p] by {
                assert(buf[i + p] == encoding_of_seq(elems)[p]);
                assert(encoding_of_seq(elems)[p] == (enc0 + encr)[p]);
            }
        }
        let at_end = i + total == buf.len();
        if rest.len() > 0 {
            assert(encr.len() >= 3);
            assert(rt_ok(e0, false) == rt_ok(e0, at_end && elems.len() == 1));
        }
        lemma_encode_decodes(e0, buf, i);
        let j = i + enc0.len();
        assert(buf.subrange(j, j + encr.len()) =~= encr) by {
            lemma_region_index(buf, i, encoding_of_seq(elems));
            assert forall|p: int| 0 <= p < encr.len() implies buf.subrange(j, j + encr.len())[p]
                == encr[p] by {
                assert(buf[i + (enc0.len() + p)] == encoding_of_seq(elems)[enc0.len() + p]);
                assert(encoding_of_seq(elems)[enc0.len() + p] == (enc0 + encr)[enc0.len() + p]);
            }
        }
        lemma_elems_decode(rest, buf, j);
        assert(seq![e0] + rest =~= elems);
        assert(i < buf.len());
    }
}

// ---------------------------------------------------------------------------
// Decoded values decode from their own encodings
// ---------------------------------------------------------------------------
/// Whatever decodes is round-trippable mid-buffer: its simple strings hold
/// no line terminator and its lengths fit the length header.
pub proof fn lemma_decode_rt_ok(buf: Seq<u8>, i: int, v: RespVal, j: int)
    requires
        0 <= i,
        spec_decode(buf, i) == Ok::<(RespVal, int), (RESPError, int)>((v, j)),
    ensures
        rt_ok(v, false),
    decreases remaining(buf, i), 1int,
{
    if i < buf.len() {
        if buf[i] == 43 {
            if let Ok((line, j2)) = spec_extract_line(buf, i + 1) {
                lemma_extract_line_ok(buf, i + 1, line, j2);
                if valid_utf8(line) {
                    assert(encode_utf8(decode_utf8(line)) == line);
                }
            }
        } else if buf[i] == 36 {
            if let Ok((line, jl)) = spec_extract_line(buf, i + 1) {
                lemma_extract_line_ok(buf, i + 1, line, jl);
            }
            if let Ok((n, j2)) = spec_extract_length(buf, i + 1) {
                if n >= 0 {
                    if let Ok((content, j3)) = spec_extract_bytes(buf, j2, n as int) {
                        if valid_utf8(content) {
                            assert(encode_utf8(decode_utf8(content)) == content);
                            assert(content.len() == n as int);
                        }
                    }
                }
            }
        } else if buf[i] == 42 {
            lemma_parse_array_rt_ok(buf, i, v, j);
        }
    }
}

/// As `lemma_decode_rt_ok`, for the array parser.
pub proof fn lemma_parse_array_rt_ok(buf: Seq<u8>, i: int, v: RespVal, j: int)
    requires
        0 <= i,
        spec_parse_array(buf, i) == Ok::<(RespVal, int), (RESPError, int)>((v, j)),
    ensures
        rt_ok(v, false),
    decreases remaining(buf, i), 0int,
{
    if let Ok(j1) = spec_remove_type(42u8, buf, i) {
        if let Ok((n, j2)) = spec_extract_length(buf, j1) {
            if n >= 0 && j2 > i {
                if let Ok((elems, j3)) = spec_decode_elems(buf, j2, n as int) {
                    lemma_decode_elems_rt_ok(buf, j2, n as int, elems, j3);
                    crate::resp_spec::lemma_decode_elems_advances(buf, j2, n as int, elems, j3);
                }
            }
        }
    }
}

/// As `lemma_decode_rt_ok`, for element sequences.
pub proof fn lemma_decode_elems_rt_ok(buf: Seq<u8>, i: int, n: int, elems: Seq<RespVal>, j: int)
    requires
        0 <= i,
        spec_decode_elems(buf, i, n) == Ok::<(Seq<RespVal>, int), (RESPError, int)>((elems, j)),
    ensures
        rt_ok_seq(elems, false),
    decreases remaining(buf, i), 2int,
{
    if n > 0 && i < buf.len() {
        if let Ok((v, j1)) = spec_decode(buf, i) {
            lemma_decode_rt_ok(buf, i, v, j1);
            crate::resp_spec::lemma_decode_advances(buf, i, v, j1);
            if j1 > i {
                if let Ok((rest, j2)) = spec_decode_elems(buf, j1, n - 1) {
                    lemma_decode_elems_rt_ok(buf, j1, n - 1, rest, j2);
                    assert((seq![v] + rest).drop_first() =~= rest);
                    assert((seq![v] + rest)[0] == v);
                }
            }
        }
    }
}

/// A mid-buffer round-trippable value whose rightmost leaf is no empty
/// simple string is round-trippable at the end of a buffer too.
pub proof fn lemma_rt_ok_upgrade(v: RespVal)
    requires
        rt_ok(v, false),
        last_leaf_nonempty(v),
    ensures
        rt_ok(v, true),
    decreases v,
{
    match v {
        RespVal::Array(elems) => {
            lemma_rt_ok_seq_upgrade(elems);
        },
        _ => {},
    }
}

/// As `lemma_rt_ok_upgrade`, for element sequences.
pub proof fn lemma_rt_ok_seq_upgrade(elems: Seq<RespVal>)
    requires
        rt_ok_seq(elems, false),
        elems.len() == 0 || last_leaf_nonempty(elems.last()),
    ensures
        rt_ok_seq(elems, true),
    decreases elems,
{
    if elems.len() == 1 {
        assert(elems.last() == elems[0]);
        lemma_rt_ok_upgrade(elems[0]);
        assert(elems.drop_first() =~= Seq::<RespVal>::empty());
        assert(rt_ok(elems[0], true && elems.len() == 1));
        assert(rt_ok_seq(elems.drop_first(), true));
        assert(rt_ok_seq(elems, true));
    } else if elems.len() > 1 {
        assert(elems.drop_first().last() == elems.last());
        assert(rt_ok_seq(elems.drop_first(), false));
        lemma_rt_ok_seq_upgrade(elems.drop_first());
        assert(rt_ok(elems[0], true && elems.len() == 1));
        assert(rt_ok_seq(elems, true));
    } else {
        assert(rt_ok_seq(elems, true));
    }
}

/// Round trip: a protocol value decoded from any buffer decodes again from
/// its own encoding alone, consuming exactly the encoded length. The one
/// proviso: the value's rightmost leaf must not be an empty simple string —
/// such a value decodes only with trailing bytes after it, and its bare
/// encoding does not decode.
pub proof fn lemma_decode_encode_round_trip(buf: Seq<u8>, i: int, v: RespVal, j: int)
    requires
        0 <= i,
        spec_decode(buf, i) == Ok::<(RespVal, int), (RESPError, int)>((v, j)),
        last_leaf_nonempty(v),
    ensures
        spec_decode(encoding_of(v), 0) == Ok::<(RespVal, int), (RESPError, int)>(
            (v, encoding_of(v).len() as int),
        ),
{
    lemma_decode_rt_ok(buf, i, v, j);
    lemma_rt_ok_upgrade(v);
    let enc = encoding_of(v);
    assert(enc.subrange(0, enc.len() as int) =~= enc);
    lemma_encode_decodes(v, enc, 0);
}

/// Bytes below 128 are valid UTF-8.
pub proof fn lemma_ascii_bytes_valid_utf8(bytes: Seq<u8>)
    requires
        forall|p: int| 0 <= p < bytes.len() ==> #[trigger] bytes[p] < 128,
    ensures
        valid_utf8(bytes),
{
    let chars = Seq::new(bytes.len(), |p: int| bytes[p] as char);
    assert(vstd::utf8::is_ascii_chars(chars));
    vstd::utf8::is_ascii_chars_encode_utf8(chars);
    assert(encode_utf8(chars) =~= bytes);
}

} // verus!
