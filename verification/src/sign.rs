//! The HMAC-SHA1 signature of a base string, in base64.

use crypto::mac::Mac;
use rustc_serialize::base64::ToBase64;
use vstd::prelude::*;
use vstd::utf8::*;

verus! {

/// The 20-byte HMAC-SHA1 code of `msg` under `key` (RFC 2104 with SHA-1).
pub uninterp spec fn hmac_sha1_code(key: Seq<u8>, msg: Seq<u8>) -> Seq<u8>;

/// The base64 text of `bytes`: standard alphabet, padded, on one line.
pub uninterp spec fn base64_text(bytes: Seq<u8>) -> Seq<char>;

/// The characters that stand for six bits: letters, digits, `+` and `/`.
pub open spec fn is_base64_digit(c: char) -> bool {
    ||| 'A' <= c <= 'Z'
    ||| 'a' <= c <= 'z'
    ||| '0' <= c <= '9'
    ||| c == '+'
    ||| c == '/'
}

/// The number of `=` at the end of the base64 text of `n` bytes.
pub open spec fn base64_padding(n: int) -> int {
    if n % 3 == 0 {
        0
    } else {
        3 - n % 3
    }
}

/// The shape of the base64 text of `n` bytes: four characters for every
/// three bytes begun, digits first, and `=` in the places that are left.
pub open spec fn base64_shape(text: Seq<char>, n: int) -> bool {
    &&& text.len() == (n + 2) / 3 * 4
    &&& forall|i: int| 0 <= i < text.len() - base64_padding(n) ==> is_base64_digit(#[trigger] text[i])
    &&& forall|i: int| text.len() - base64_padding(n) <= i < text.len() ==> #[trigger] text[i] == '='
}

/// The largest number of bytes that the SHA-1 digest counts: its bit counter has 64 bits.
pub open spec fn digest_limit() -> int {
    0x2000_0000_0000_0000
}

/// Whether a key and a message of these lengths can be given to HMAC-SHA1:
/// the key is hashed when it is longer than a block, the message after one block.
pub open spec fn within_digest_limit(key_len: int, msg_len: int) -> bool {
    key_len < digest_limit() && msg_len + 64 < digest_limit()
}

/// `crypto::hmac::Hmac::new` over `crypto::sha1::Sha1`, then `Mac::input` and
/// `Mac::result`: the code is the HMAC-SHA1 of the message under the key, and
/// has the digest's 20 bytes. The digest stops on input past its bit counter,
/// which `requires` leaves out.
#[verifier::external_body]
fn hmac_sha1(key: &[u8], msg: &[u8]) -> (code: Vec<u8>)
    requires
        within_digest_limit(key@.len() as int, msg@.len() as int),
    ensures
        code@ == hmac_sha1_code(key@, msg@),
        code@.len() == 20,
{
    let mut hmac = crypto::hmac::Hmac::new(crypto::sha1::Sha1::new(), key);
    hmac.input(msg);
    hmac.result().code().to_vec()
}

/// `rustc_serialize::base64::ToBase64::to_base64` on a byte slice, with the
/// standard character set, padding and no line breaks. The text has four
/// characters for every three bytes begun: digits of the standard alphabet,
/// then `=` to fill the last four. The bound on the input keeps that length
/// within `usize`.
#[verifier::external_body]
fn base64_standard(bytes: &[u8]) -> (text: String)
    requires
        bytes@.len() < 0x4000_0000,
    ensures
        text@ == base64_text(bytes@),
        base64_shape(text@, bytes@.len() as int),
{
    bytes.to_base64(rustc_serialize::base64::Config {
        char_set: rustc_serialize::base64::CharacterSet::Standard,
        newline: rustc_serialize::base64::Newline::LF,
        pad: true,
        line_length: None,
    })
}

/// The token secret as text: empty where there is no token.
pub open spec fn secret_or_empty(token_secret: Option<Seq<char>>) -> Seq<char> {
    match token_secret {
        Some(s) => s,
        None => Seq::empty(),
    }
}

/// The HMAC key: the two secrets, not encoded, with `&` between them.
pub open spec fn signing_key(consumer_secret: Seq<char>, token_secret: Option<Seq<char>>) -> Seq<
    char,
> {
    consumer_secret + seq!['&'] + secret_or_empty(token_secret)
}

/// Whether the base string can be signed with these secrets.
pub open spec fn signable(
    base: Seq<char>,
    consumer_secret: Seq<char>,
    token_secret: Option<Seq<char>>,
) -> bool {
    within_digest_limit(
        encode_utf8(signing_key(consumer_secret, token_secret)).len() as int,
        encode_utf8(base).len() as int,
    )
}

/// The code of a base string: its HMAC-SHA1 under the signing key, both
/// taken as UTF-8 bytes.
pub open spec fn mac_code(
    base: Seq<char>,
    consumer_secret: Seq<char>,
    token_secret: Option<Seq<char>>,
) -> Seq<u8> {
    hmac_sha1_code(encode_utf8(signing_key(consumer_secret, token_secret)), encode_utf8(base))
}

/// The signature value of a base string: the base64 text of its code.
pub open spec fn signature_text(
    base: Seq<char>,
    consumer_secret: Seq<char>,
    token_secret: Option<Seq<char>>,
) -> Seq<char> {
    base64_text(mac_code(base, consumer_secret, token_secret))
}

/// The view of an optional string slice.
pub open spec fn opt_view(s: Option<&str>) -> Option<Seq<char>> {
    match s {
        Some(t) => Some(t@),
        None => None,
    }
}

/// The HMAC key as a string: the two secrets with `&` between them.
fn key_string(consumer_secret: &str, token_secret: Option<&str>) -> (key: String)
    ensures
        key@ == signing_key(consumer_secret@, opt_view(token_secret)),
{
    let mut key = String::new();
    key.append(consumer_secret);
    key.push('&');
    match token_secret {
        Some(secret) => {
            key.append(secret);
        },
        None => {},
    }
    assert(key@ =~= signing_key(consumer_secret@, opt_view(token_secret)));
    key
}

/// Signs `base` with the consumer secret and, where there is one, the token
/// secret: the raw code of twenty bytes.
pub fn sign(base: &str, consumer_secret: &str, token_secret: Option<&str>) -> (code: Vec<u8>)
    requires
        signable(base@, consumer_secret@, opt_view(token_secret)),
    ensures
        code@ == mac_code(base@, consumer_secret@, opt_view(token_secret)),
        code@.len() == 20,
{
    let key = key_string(consumer_secret, token_secret);
    hmac_sha1(key.as_str().as_bytes(), base.as_bytes())
}

/// Signs `base` where the digest can take it: `None` where the key or the
/// base string is past the digest's limit, else the raw code.
pub fn try_sign(base: &str, consumer_secret: &str, token_secret: Option<&str>) -> (r: Option<
    Vec<u8>,
>)
    ensures
        r.is_some() == signable(base@, consumer_secret@, opt_view(token_secret)),
        r matches Some(code) ==> code@ == mac_code(
            base@,
            consumer_secret@,
            opt_view(token_secret),
        ) && code@.len() == 20,
{
    let key = key_string(consumer_secret, token_secret);
    let key_len = key.as_str().as_bytes().len() as u64;
    let base_len = base.as_bytes().len() as u64;
    if key_len < 0x2000_0000_0000_0000u64 && base_len < 0x1FFF_FFFF_FFFF_FFC0u64 {
        Some(hmac_sha1(key.as_str().as_bytes(), base.as_bytes()))
    } else {
        None
    }
}

/// The signature value of a code: its base64 text, which goes into the
/// parameter set.
pub fn signature_value(code: &[u8]) -> (text: String)
    requires
        code@.len() < 0x4000_0000,
    ensures
        text@ == base64_text(code@),
        base64_shape(text@, code@.len() as int),
{
    base64_standard(code)
}

/// The signature value of a code of twenty bytes has twenty-eight
/// characters: twenty-seven digits and one `=` at the end.
pub proof fn lemma_shape_of_signature(text: Seq<char>)
    requires
        base64_shape(text, 20),
    ensures
        text.len() == 28,
        text[27] == '=',
        forall|i: int| 0 <= i < 27 ==> is_base64_digit(#[trigger] text[i]),
        forall|i: int| 0 <= i < 27 ==> #[trigger] text[i] != '=',
        forall|i: int| 0 <= i < 28 ==> #[trigger] text[i] != '\n' && text[i] != '\r',
{
    assert(base64_padding(20) == 1);
    assert forall|i: int| 0 <= i < 28 implies #[trigger] text[i] != '\n' && text[i] != '\r' by {
        if i < 27 {
            assert(is_base64_digit(text[i]));
        }
    }
}

/// An absent token secret signs as an empty one: the key keeps its `&`.
pub proof fn lemma_absent_secret_is_empty(base: Seq<char>, consumer_secret: Seq<char>)
    ensures
        signing_key(consumer_secret, None) == signing_key(consumer_secret, Some(Seq::empty())),
        mac_code(base, consumer_secret, None) == mac_code(
            base,
            consumer_secret,
            Some(Seq::empty()),
        ),
        signature_text(base, consumer_secret, None) == signature_text(
            base,
            consumer_secret,
            Some(Seq::empty()),
        ),
{
}

} // verus!
