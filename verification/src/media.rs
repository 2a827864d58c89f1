//! Bytes as text: covers and voice notes on their way to and from a page.

use vstd::prelude::*;

use crate::dictionary::{digits_value, read_digits};
use crate::epub::{decoded_path, percent_decode};
use crate::text::{chars_of, text_of};

verus! {

// ---------------------------------------------------------------------------
// Base 64
// ---------------------------------------------------------------------------

/// The sign for a number below 64.
pub open spec fn sign(n: int) -> char {
    if n < 26 {
        (65 + n) as char
    } else if n < 52 {
        (71 + n) as char
    } else if n < 62 {
        (n - 4) as char
    } else if n == 62 {
        '+'
    } else {
        '/'
    }
}

/// The byte at a place, or nothing behind the end.
pub open spec fn byte_at(b: Seq<u8>, i: int) -> int {
    if i < b.len() {
        b[i] as int
    } else {
        0
    }
}

/// The four signs for the first three bytes, with an equals sign for each that is missing behind
/// the first.
pub open spec fn quartet(b: Seq<u8>) -> Seq<char> {
    let x = byte_at(b, 0);
    let y = byte_at(b, 1);
    let z = byte_at(b, 2);
    seq![
        sign(x / 4),
        sign(x % 4 * 16 + y / 16),
        if b.len() > 1 {
            sign(y % 16 * 4 + z / 64)
        } else {
            '='
        },
        if b.len() > 2 {
            sign(z % 64)
        } else {
            '='
        },
    ]
}

/// Bytes as text in base 64.
pub open spec fn base64_text(b: Seq<u8>) -> Seq<char>
    decreases b.len(),
{
    if b.len() == 0 {
        Seq::empty()
    } else if b.len() <= 3 {
        quartet(b)
    } else {
        quartet(b) + base64_text(b.skip(3))
    }
}

/// Calls `base64::Engine::encode` on the engine `STANDARD`: the bytes in the standard alphabet,
/// three at a time, padded with equals signs.
#[verifier::external_body]
fn encode_base64(b: &Vec<u8>) -> (r: String)
    requires
        b@.len() <= usize::MAX / 4,
    ensures
        r@ == base64_text(b@),
{
    base64::Engine::encode(&base64::engine::general_purpose::STANDARD, b)
}

/// What the decoder says of a text that is not what encoding some bytes gives.
pub uninterp spec fn base64_error(s: Seq<char>) -> Seq<char>;

/// Calls `base64::Engine::decode` on the engine `STANDARD`, which takes a text exactly when it is
/// what encoding some bytes gives, padding and all, and then gives such bytes. Of any other text
/// it gives an error, whose message depends on the text alone.
#[verifier::external_body]
fn decode_base64(s: &str) -> (r: Result<Vec<u8>, String>)
    ensures
        match r {
            Ok(b) => base64_text(b@) == s@,
            Err(e) => e@ == base64_error(s@) && forall|b: Seq<u8>| #[trigger] base64_text(b) != s@,
        },
{
    base64::Engine::decode(&base64::engine::general_purpose::STANDARD, s.as_bytes()).map_err(|e| e.to_string())
}

proof fn lemma_signs_differ(m: int, n: int)
    requires
        0 <= m < 64,
        0 <= n < 64,
    ensures
        sign(m) == sign(n) ==> m == n,
        sign(m) != '=',
{
}

proof fn lemma_quartets_differ(a: Seq<u8>, b: Seq<u8>)
    requires
        a.len() > 0,
        b.len() > 0,
        quartet(a) == quartet(b),
    ensures
        byte_at(a, 0) == byte_at(b, 0),
        byte_at(a, 1) == byte_at(b, 1),
        byte_at(a, 2) == byte_at(b, 2),
        a.len() > 1 <==> b.len() > 1,
        a.len() > 2 <==> b.len() > 2,
{
    let (x, y, z) = (byte_at(a, 0), byte_at(a, 1), byte_at(a, 2));
    let (u, v, w) = (byte_at(b, 0), byte_at(b, 1), byte_at(b, 2));
    assert(quartet(a)[0] == quartet(b)[0]);
    assert(quartet(a)[1] == quartet(b)[1]);
    assert(quartet(a)[2] == quartet(b)[2]);
    assert(quartet(a)[3] == quartet(b)[3]);
    lemma_signs_differ(x / 4, u / 4);
    lemma_signs_differ(x % 4 * 16 + y / 16, u % 4 * 16 + v / 16);
    lemma_signs_differ(y % 16 * 4 + z / 64, v % 16 * 4 + w / 64);
    lemma_signs_differ(z % 64, w % 64);
}

/// Bytes come back from their text in base 64: no other bytes have that text.
pub proof fn base64_loses_nothing(a: Seq<u8>, b: Seq<u8>)
    requires
        base64_text(a) == base64_text(b),
    ensures
        a == b,
    decreases a.len(),
{
    lemma_base64_len(a);
    lemma_base64_len(b);
    if a.len() == 0 || b.len() == 0 {
        assert(a =~= b);
    } else {
        let s = base64_text(a);
        assert(s.take(4) =~= quartet(a));
        assert(s.take(4) =~= quartet(b));
        lemma_quartets_differ(a, b);
        if a.len() > 3 && b.len() > 3 {
            assert(s.skip(4) =~= base64_text(a.skip(3)));
            assert(s.skip(4) =~= base64_text(b.skip(3)));
            base64_loses_nothing(a.skip(3), b.skip(3));
            assert forall|i: int| 0 <= i < a.len() implies a[i] == b[i] by {
                if i >= 3 {
                    assert(a.skip(3)[i - 3] == b.skip(3)[i - 3]);
                } else {
                    assert(byte_at(a, i) == byte_at(b, i));
                }
            }
        } else if a.len() <= 3 && b.len() <= 3 {
            assert(a.len() == b.len());
            assert forall|i: int| 0 <= i < a.len() implies a[i] == b[i] by {
                assert(byte_at(a, i) == byte_at(b, i));
            }
        } else {
            lemma_base64_len(a.skip(3));
            lemma_base64_len(b.skip(3));
        }
        assert(a =~= b);
    }
}

proof fn lemma_base64_len(b: Seq<u8>)
    ensures
        b.len() == 0 <==> base64_text(b).len() == 0,
        b.len() > 0 ==> base64_text(b).len() >= 4,
        b.len() > 3 ==> base64_text(b).len() >= 8,
        b.len() <= 3 ==> base64_text(b).len() <= 4,
    decreases b.len(),
{
    if b.len() > 3 {
        lemma_base64_len(b.skip(3));
    }
}

// ---------------------------------------------------------------------------
// Assets
// ---------------------------------------------------------------------------

/// An asset as it goes to a page.
pub struct AssetData {
    pub mime_type: String,
    pub data_base64: String,
}

/// The type of voice notes.
pub const VOICE_MIME_TYPE: &'static str = "audio/ogg; codecs=opus";

/// An encoded voice note as it goes to a page.
pub fn voice_asset(ogg: &Vec<u8>) -> (r: AssetData)
    requires
        ogg@.len() <= usize::MAX / 4,
    ensures
        r.mime_type@ == "audio/ogg; codecs=opus"@,
        r.data_base64@ == base64_text(ogg@),
{
    AssetData { mime_type: VOICE_MIME_TYPE.to_owned(), data_base64: encode_base64(ogg) }
}

/// The bytes of a voice note that came from a page, or what the reader is told where they are
/// not well written.
pub fn voice_bytes(audio_base64: &str) -> (r: Result<Vec<u8>, String>)
    ensures
        match r {
            Ok(b) => base64_text(b@) == audio_base64@,
            Err(e) => e@ == "Failed to decode recorded audio: "@ + base64_error(audio_base64@) && forall|b: Seq<u8>|
                #[trigger] base64_text(b) != audio_base64@,
        },
{
    match decode_base64(audio_base64) {
        Ok(b) => Ok(b),
        Err(e) => {
            let mut message = "Failed to decode recorded audio: ".to_owned();
            message.append(e.as_str());
            Err(message)
        },
    }
}

/// An asset as an address that holds all of it.
pub fn data_uri(mime_type: &str, data: &Vec<u8>) -> (r: String)
    requires
        data@.len() <= usize::MAX / 4,
    ensures
        r@ == "data:"@ + mime_type@ + ";base64,"@ + base64_text(data@),
{
    let mut out = "data:".to_owned();
    out.append(mime_type);
    out.append(";base64,");
    out.append(encode_base64(data).as_str());
    out
}

// ---------------------------------------------------------------------------
// Addresses
// ---------------------------------------------------------------------------

/// The integer of 64 bits that a text writes: digits, behind a sign or not.
pub open spec fn written_id(s: Seq<char>) -> Option<int> {
    let signed = s.len() > 0 && (s[0] == '+' || s[0] == '-');
    let digits = if signed {
        s.skip(1)
    } else {
        s
    };
    if digits.len() == 0 {
        None
    } else {
        match digits_value(digits, 10) {
            Some(n) => {
                let value = if signed && s[0] == '-' {
                    -n
                } else {
                    n
                };
                if i64::MIN <= value <= i64::MAX {
                    Some(value)
                } else {
                    None
                }
            },
            None => None,
        }
    }
}

/// The id that a text writes, where it writes one.
pub fn parse_id(s: &str) -> (r: Option<i64>)
    ensures
        match r {
            Some(id) => written_id(s@) == Some(id as int),
            None => written_id(s@) is None,
        },
{
    let chars = chars_of(s);
    let total: usize = chars.len();
    let signed = total > 0 && (chars[0] == '+' || chars[0] == '-');
    let from: usize = if signed {
        1
    } else {
        0
    };
    assert(chars@.skip(from as int) =~= if signed {
        s@.skip(1)
    } else {
        s@
    });
    if from == total {
        return None;
    }
    match read_digits(&chars, from) {
        None => None,
        Some(n) => {
            if signed && chars[0] == '-' {
                if n <= 9223372036854775807 {
                    Some(-(n as i64))
                } else if n == 9223372036854775808 {
                    Some(i64::MIN)
                } else {
                    None
                }
            } else if n <= 9223372036854775807 {
                Some(n as i64)
            } else {
                None
            }
        },
    }
}

/// A path without the slashes at its front.
pub open spec fn without_root(path: Seq<char>) -> Seq<char>
    decreases path.len(),
{
    if path.len() > 0 && path[0] == '/' {
        without_root(path.drop_first())
    } else {
        path
    }
}

fn strip_root(path: &str) -> (r: String)
    ensures
        r@ == without_root(path@),
{
    let chars = chars_of(path);
    let mut k: usize = 0;
    assert(chars@.skip(0) =~= chars@);
    while k < chars.len() && chars[k] == '/'
        invariant
            k <= chars@.len(),
            chars@ == path@,
            without_root(path@) == without_root(chars@.skip(k as int)),
        decreases chars@.len() - k,
    {
        assert(chars@.skip(k as int).drop_first() =~= chars@.skip(k + 1));
        k += 1;
    }
    assert(chars@.subrange(k as int, chars@.len() as int) =~= chars@.skip(k as int));
    text_of(&chars, k, chars.len())
}

/// The asset that the path of an address asks for.
pub fn requested_asset(path: &str) -> (r: Option<i64>)
    ensures
        match r {
            Some(id) => written_id(without_root(path@)) == Some(id as int),
            None => written_id(without_root(path@)) is None,
        },
{
    parse_id(strip_root(path).as_str())
}

/// The book file that the path of an address asks for the cover of.
pub fn requested_cover(path: &str) -> (r: String)
    ensures
        r@ == decoded_path(without_root(path@)),
{
    percent_decode(strip_root(path).as_str())
}

} // verus!
