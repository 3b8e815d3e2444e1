//! Standard padded base64, as the `base64` crate's `STANDARD` engine
//! encodes and decodes it.

use base64::Engine;
use vstd::prelude::*;

verus! {

/// The character of the standard alphabet for a six-bit value.
pub open spec fn b64_digit(v: int) -> char {
    if v < 26 {
        (65 + v) as char
    } else if v < 52 {
        (97 + v - 26) as char
    } else if v < 62 {
        (48 + v - 52) as char
    } else if v == 62 {
        '+'
    } else {
        '/'
    }
}

/// One to three bytes as four characters, `=` standing for the missing
/// ones.
pub open spec fn b64_group(b: Seq<u8>) -> Seq<char> {
    let b1: int = if b.len() > 1 {
        b[1] as int
    } else {
        0
    };
    let b2: int = if b.len() > 2 {
        b[2] as int
    } else {
        0
    };
    let n = b[0] as int * 65536 + b1 * 256 + b2;
    seq![
        b64_digit(n / 262144),
        b64_digit((n / 4096) % 64),
        if b.len() > 1 {
            b64_digit((n / 64) % 64)
        } else {
            '='
        },
        if b.len() > 2 {
            b64_digit(n % 64)
        } else {
            '='
        },
    ]
}

/// Standard padded base64 (what `STANDARD.encode` returns): each group of
/// three bytes as four characters, the last group padded with `=`.
pub closed spec fn b64_encoding(bytes: Seq<u8>) -> Seq<char>
    decreases bytes.len(),
{
    if bytes.len() == 0 {
        seq![]
    } else if bytes.len() <= 3 {
        b64_group(bytes)
    } else {
        b64_group(bytes.take(3)) + b64_encoding(bytes.skip(3))
    }
}

/// What `STANDARD.decode` returns for this text: `None` when it rejects it.
pub uninterp spec fn b64_decoding(text: Seq<char>) -> Option<Seq<u8>>;

/// A character of the standard base64 alphabet, or the padding `=`.
pub open spec fn is_b64_char(c: char) -> bool {
    ||| ('A' <= c && c <= 'Z')
    ||| ('a' <= c && c <= 'z')
    ||| ('0' <= c && c <= '9')
    ||| c == '+'
    ||| c == '/'
    ||| c == '='
}

/// Text made only of base64 characters.
pub open spec fn b64_text(s: Seq<char>) -> bool {
    forall|i: int| 0 <= i < s.len() ==> is_b64_char(#[trigger] s[i])
}

/// Calls `base64::engine::general_purpose::STANDARD.encode`. Claimed: the
/// result is the encoding of exactly these bytes, is made of alphabet and
/// padding characters only, has the padded length `4 * ceil(n / 3)`, and
/// the same engine's (canonical) decoding gives the bytes back.
#[verifier::external_body]
pub(crate) fn b64_encode(bytes: &[u8]) -> (r: String)
    ensures
        r@ == b64_encoding(bytes@),
        b64_decoding(r@) == Some(bytes@),
        b64_text(r@),
        r@.len() == 4 * ((bytes@.len() + 2) / 3),
{
    base64::engine::general_purpose::STANDARD.encode(bytes)
}

/// Calls `base64::engine::general_purpose::STANDARD.decode`. Claimed: it
/// succeeds exactly when the decoding of this text is defined, and then
/// returns it; text with a character outside the alphabet and padding is
/// rejected; the error is carried as its rendered message.
#[verifier::external_body]
pub(crate) fn b64_decode(text: &str) -> (r: Result<Vec<u8>, String>)
    ensures
        !b64_text(text@) ==> r is Err,
        match r {
            Ok(v) => b64_decoding(text@) == Some(v@),
            Err(_) => b64_decoding(text@) is None,
        },
{
    match base64::engine::general_purpose::STANDARD.decode(text) {
        Ok(v) => Ok(v),
        Err(e) => Err(format!("{e}")),
    }
}

} // verus!
