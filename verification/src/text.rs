//! Text recovery and decimal identifier strings.
//!
//! Text is persisted as its UTF-8 bytes and recovered here.  Identifier
//! strings are a fixed ASCII prefix followed by the decimal digits of a
//! counter value; distinct counter values give distinct identifiers, which
//! keeps the persisted keys collision-free.

use vstd::prelude::*;
use vstd::utf8::{decode_utf8, encode_utf8, is_ascii_chars, valid_utf8};

verus! {

broadcast use
    vstd::utf8::encode_utf8_valid_utf8,
    vstd::utf8::encode_utf8_decode_utf8,
    vstd::utf8::is_ascii_chars_encode_utf8,
;

/// Relies on `String::from_utf8`: decodes the byte vector as UTF-8,
/// returning the decoded string exactly when the bytes are valid UTF-8.
#[verifier::external_body]
fn utf8_to_string(v: Vec<u8>) -> (r: Option<String>)
    ensures
        r is Some <==> valid_utf8(v@),
        r is Some ==> r->Some_0@ == decode_utf8(v@),
{
    match String::from_utf8(v) {
        Ok(s) => Some(s),
        Err(_) => None,
    }
}

/// Recovers text from its UTF-8 bytes; complete for every encoded string.
pub fn string_from_field(f: Vec<u8>) -> (r: Option<String>)
    ensures
        forall|s: Seq<char>| f@ == encode_utf8(s) ==> r is Some && r->Some_0@ == s,
{
    utf8_to_string(f)
}

/// The ASCII digit bytes of `n`, most significant first, no leading zeros.
pub open spec fn dec_digit_bytes(n: u64) -> Seq<u8>
    decreases n,
{
    if n < 10 {
        seq![(48 + n) as u8]
    } else {
        dec_digit_bytes((n / 10) as u64) + seq![(48 + n % 10) as u8]
    }
}

/// The same digits, as characters.
pub open spec fn dec_digit_chars(n: u64) -> Seq<char> {
    dec_digit_bytes(n).map(|i: int, b: u8| b as char)
}

/// Digit bytes are ASCII digits.
pub proof fn lemma_digit_bytes_range(n: u64)
    ensures
        dec_digit_bytes(n).len() >= 1,
        forall|i: int|
            0 <= i < dec_digit_bytes(n).len() ==> 48 <= #[trigger] dec_digit_bytes(n)[i] <= 57,
    decreases n,
{
    if n >= 10 {
        lemma_digit_bytes_range((n / 10) as u64);
    }
}

/// Distinct values have distinct digit strings.
pub proof fn lemma_digit_bytes_injective(a: u64, b: u64)
    requires
        dec_digit_bytes(a) == dec_digit_bytes(b),
    ensures
        a == b,
    decreases a,
{
    lemma_digit_bytes_range(a);
    lemma_digit_bytes_range(b);
    if a < 10 && b < 10 {
        assert(dec_digit_bytes(a)[0] == (48 + a) as u8);
        assert(dec_digit_bytes(b)[0] == (48 + b) as u8);
        assert((48 + a) as u8 == (48 + b) as u8);
        assert(a == b);
    } else if a < 10 && b >= 10 {
        lemma_digit_bytes_range((b / 10) as u64);
        assert(dec_digit_bytes(b).len() >= 2);
    } else if a >= 10 && b < 10 {
        lemma_digit_bytes_range((a / 10) as u64);
        assert(dec_digit_bytes(a).len() >= 2);
    } else {
        let da = dec_digit_bytes(a);
        let db = dec_digit_bytes(b);
        assert(da.last() == db.last());
        assert(da.last() == (48 + a % 10) as u8);
        assert(db.last() == (48 + b % 10) as u8);
        assert(a % 10 == b % 10);
        assert(dec_digit_bytes((a / 10) as u64) =~= da.drop_last());
        assert(dec_digit_bytes((b / 10) as u64) =~= db.drop_last());
        lemma_digit_bytes_injective((a / 10) as u64, (b / 10) as u64);
        assert((a / 10) as u64 == (b / 10) as u64);
        assert(a == 10 * (a / 10) + a % 10) by (nonlinear_arith);
        assert(b == 10 * (b / 10) + b % 10) by (nonlinear_arith);
        assert(a == b);
    }
}

/// Distinct values have distinct digit character strings.
pub proof fn lemma_dec_digit_chars_injective(a: u64, b: u64)
    requires
        dec_digit_chars(a) == dec_digit_chars(b),
    ensures
        a == b,
{
    lemma_digit_bytes_range(a);
    lemma_digit_bytes_range(b);
    let da = dec_digit_bytes(a);
    let db = dec_digit_bytes(b);
    assert(dec_digit_chars(a).len() == da.len());
    assert(dec_digit_chars(b).len() == db.len());
    assert(da.len() == db.len());
    assert forall|i: int| 0 <= i < da.len() implies da[i] == db[i] by {
        assert(dec_digit_chars(a)[i] == (da[i] as char));
        assert(dec_digit_chars(b)[i] == (db[i] as char));
        assert((da[i] as char) == (db[i] as char));
        assert((da[i] as char) as u8 == da[i]);
        assert((db[i] as char) as u8 == db[i]);
    }
    assert(da =~= db);
    lemma_digit_bytes_injective(a, b);
}

/// Appends the decimal digits of `n`.
fn push_digits(n: u64, out: &mut Vec<u8>)
    ensures
        final(out)@ == old(out)@ + dec_digit_bytes(n),
    decreases n,
{
    if n < 10 {
        out.push(48 + (n as u8));
        proof {
            assert(out@ =~= old(out)@ + dec_digit_bytes(n));
        }
    } else {
        push_digits(n / 10, out);
        out.push(48 + ((n % 10) as u8));
        proof {
            assert(out@ =~= old(out)@ + dec_digit_bytes(n));
        }
    }
}

/// Builds the identifier string `prefix` + decimal digits of `n` from an
/// ASCII prefix given as bytes.
pub fn format_id(prefix: &Vec<u8>, n: u64) -> (r: String)
    requires
        forall|i: int| 0 <= i < prefix@.len() ==> #[trigger] prefix@[i] < 128,
    ensures
        r@ == prefix@.map(|i: int, b: u8| b as char) + dec_digit_chars(n),
        encode_utf8(r@) == prefix@ + dec_digit_bytes(n),
{
    let mut bytes: Vec<u8> = Vec::new();
    let mut i: usize = 0;
    let len = prefix.len();
    while i < len
        invariant
            len == prefix@.len(),
            i <= len,
            bytes@ == prefix@.subrange(0, i as int),
        decreases len - i,
    {
        bytes.push(prefix[i]);
        i = i + 1;
        proof {
            assert(bytes@ =~= prefix@.subrange(0, i as int));
        }
    }
    proof {
        assert(bytes@ =~= prefix@);
    }
    push_digits(n, &mut bytes);
    let ghost chars = bytes@.map(|i: int, b: u8| b as char);
    proof {
        lemma_digit_bytes_range(n);
        assert(forall|i: int| 0 <= i < bytes@.len() ==> #[trigger] bytes@[i] < 128);
        assert(is_ascii_chars(chars)) by {
            assert(forall|i: int|
                0 <= i < chars.len() ==> '\0' <= #[trigger] chars[i] <= '\u{7f}');
        }
        assert(encode_utf8(chars) =~= bytes@);
        assert(chars =~= prefix@.map(|i: int, b: u8| b as char) + dec_digit_chars(n));
    }
    let r = match utf8_to_string(bytes) {
        Some(s) => s,
        None => {
            proof {
                assert(false);
            }
            String::new()
        },
    };
    proof {
        assert(r@ == decode_utf8(encode_utf8(chars)));
    }
    r
}

} // verus!
