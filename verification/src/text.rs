//! Small text helpers shared by the command layer: case folding, unsigned
//! number parsing, and joining argument lists.
use vstd::prelude::*;
use vstd::string::{StrSliceExecFns, StringExecFns};

use crate::resp_spec::{all_digits, digits_value, lemma_digits_value_monotone};

verus! {

broadcast use vstd::std_specs::vec::group_vec_axioms, vstd::seq::group_seq_axioms;

/// What `str::to_lowercase` returns: a function of the characters alone.
pub uninterp spec fn lower_of(s: Seq<char>) -> Seq<char>;

/// Relies on `str::to_lowercase`: the result depends on the characters
/// alone.
#[verifier::external_body]
pub(crate) fn fold_lowercase(s: &String) -> (r: String)
    ensures
        r@ == lower_of(s@),
{
    s.to_lowercase()
}

/// The views of a sequence of strings.
pub open spec fn strs_view(v: Seq<String>) -> Seq<Seq<char>> {
    v.map_values(|s: String| s@)
}

/// The strings joined with a single separator character sequence between
/// neighbours.
pub open spec fn join_with(parts: Seq<Seq<char>>, sep: Seq<char>) -> Seq<char>
    decreases parts.len(),
{
    if parts.len() == 0 {
        Seq::empty()
    } else if parts.len() == 1 {
        parts[0]
    } else {
        join_with(parts.drop_last(), sep) + sep + parts.last()
    }
}

/// Join strings with the given separator.
#[verifier::loop_isolation(false)]
pub fn join_strings(parts: &Vec<String>, sep: &str) -> (r: String)
    ensures
        r@ == join_with(strs_view(parts@), sep@),
{
    let mut out = String::new();
    let mut i: usize = 0;
    while i < parts.len()
        invariant
            i <= parts@.len(),
            out@ == join_with(strs_view(parts@).take(i as int), sep@),
        decreases parts@.len() - i,
    {
        if i > 0 {
            out.append(sep);
        }
        out.append(parts[i].as_str());
        i = i + 1;
        proof {
            let w = strs_view(parts@);
            assert(w.take(i as int).drop_last() =~= w.take(i as int - 1));
            assert(w.take(i as int).last() == parts@[i as int - 1]@);
            if i == 1 {
                assert(join_with(w.take(1), sep@) == w[0]);
                assert(Seq::<char>::empty() + parts@[0]@ =~= parts@[0]@);
            }
        }
    }
    proof {
        assert(strs_view(parts@).take(parts@.len() as int) =~= strs_view(parts@));
    }
    out
}

/// What `str::parse::<u64>` accepts: an optional plus sign, then at least
/// one ASCII digit, with the value in range of the type.
pub open spec fn spec_parse_u64(s: Seq<u8>) -> Option<u64> {
    if s.len() > 0 && s[0] == 43 {
        let mag = s.subrange(1, s.len() as int);
        if mag.len() > 0 && all_digits(mag) && digits_value(mag) <= u64::MAX {
            Some(digits_value(mag) as u64)
        } else {
            None
        }
    } else if s.len() > 0 && all_digits(s) && digits_value(s) <= u64::MAX {
        Some(digits_value(s) as u64)
    } else {
        None
    }
}

/// Parse the bytes of a string as an unsigned 64-bit number, as
/// `str::parse` does. A minus sign is not accepted.
#[verifier::loop_isolation(false)]
pub fn parse_u64_digits(line: &Vec<u8>) -> (r: Option<u64>)
    ensures
        r == spec_parse_u64(line@),
{
    let n = line.len();
    if n == 0 {
        return None;
    }
    let start: usize = if line[0] == 43 {
        1
    } else {
        0
    };
    let ghost mag = line@.subrange(start as int, n as int);
    proof {
        if start == 0 {
            assert(mag =~= line@);
        }
    }
    if n == start {
        return None;
    }
    let mut val: u64 = 0;
    let mut idx: usize = start;
    while idx < n
        invariant
            start <= idx <= n,
            all_digits(line@.subrange(start as int, idx as int)),
            val == digits_value(line@.subrange(start as int, idx as int)),
        decreases n - idx,
    {
        let b = line[idx];
        if b < 48 || b > 57 {
            proof {
                assert(mag[idx - start] == line@[idx as int]);
                assert(!all_digits(mag));
            }
            return None;
        }
        let d = (b - 48) as u64;
        proof {
            let pref = line@.subrange(start as int, idx as int);
            let pref2 = line@.subrange(start as int, idx as int + 1);
            assert(pref2.drop_last() =~= pref);
            assert(pref2.last() == line@[idx as int]);
            assert(digits_value(pref2) == digits_value(pref) * 10 + (b - 48));
        }
        if val > (u64::MAX - d) / 10 {
            proof {
                vstd::arithmetic::div_mod::lemma_fundamental_div_mod((u64::MAX - d) as int, 10);
                if all_digits(mag) {
                    let pref2 = line@.subrange(start as int, idx as int + 1);
                    assert(mag.take(idx - start + 1) =~= pref2);
                    lemma_digits_value_monotone(mag, idx - start + 1);
                }
            }
            return None;
        }
        proof {
            vstd::arithmetic::div_mod::lemma_fundamental_div_mod((u64::MAX - d) as int, 10);
        }
        val = val * 10 + d;
        idx = idx + 1;
    }
    proof {
        assert(line@.subrange(start as int, idx as int) =~= mag);
    }
    Some(val)
}

/// Parse a string as an unsigned 64-bit number via its UTF-8 bytes.
pub fn parse_u64_string(s: &String) -> (r: Option<u64>)
    ensures
        r == spec_parse_u64(vstd::utf8::encode_utf8(s@)),
{
    let bytes = s.as_str().as_bytes_vec();
    parse_u64_digits(&bytes)
}

} // verus!
