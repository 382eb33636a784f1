//! Percent-encoding with the OAuth unreserved set (RFC 5849, section 3.6).

use vstd::prelude::*;
use vstd::utf8::*;

verus! {

/// The bytes that are copied as they are: ASCII letters, digits, `-`, `.`, `_` and `~`.
pub open spec fn is_unreserved(b: u8) -> bool {
    ||| 0x41 <= b <= 0x5A
    ||| 0x61 <= b <= 0x7A
    ||| 0x30 <= b <= 0x39
    ||| b == 0x2D
    ||| b == 0x2E
    ||| b == 0x5F
    ||| b == 0x7E
}

/// The upper-case hexadecimal digit of a value below sixteen.
pub open spec fn hex_digit(n: u8) -> char {
    if n < 10 {
        ((0x30 + n) as u8) as char
    } else {
        ((0x37 + n) as u8) as char
    }
}

/// What one byte becomes: itself when unreserved, else `%` and two hex digits.
pub open spec fn encode_byte(b: u8) -> Seq<char> {
    if is_unreserved(b) {
        seq![b as char]
    } else {
        seq!['%', hex_digit(b / 16), hex_digit(b % 16)]
    }
}

/// The encodings of the bytes, one after the other.
pub open spec fn encode_bytes(bytes: Seq<u8>) -> Seq<char>
    decreases bytes.len(),
{
    if bytes.len() == 0 {
        Seq::empty()
    } else {
        encode_bytes(bytes.drop_last()) + encode_byte(bytes.last())
    }
}

/// The percent-encoding of a text: that of its UTF-8 bytes.
pub open spec fn encode_text(s: Seq<char>) -> Seq<char> {
    encode_bytes(encode_utf8(s))
}

/// `String::push` appends the one character to the string.
pub assume_specification[ String::push ](s: &mut String, c: char)
    ensures
        final(s)@ == old(s)@.push(c),
;

/// Encoding distributes over concatenation of byte sequences.
pub proof fn lemma_encode_bytes_concat(a: Seq<u8>, b: Seq<u8>)
    ensures
        encode_bytes(a + b) == encode_bytes(a) + encode_bytes(b),
    decreases b.len(),
{
    if b.len() == 0 {
        assert(a + b == a);
        assert(encode_bytes(a) + encode_bytes(b) == encode_bytes(a));
    } else {
        lemma_encode_bytes_concat(a, b.drop_last());
        assert((a + b).drop_last() == a + b.drop_last());
        assert((a + b).last() == b.last());
        assert(encode_bytes(a + b) == encode_bytes(a) + encode_bytes(b.drop_last()) + encode_byte(
            b.last(),
        ));
        assert(encode_bytes(a) + encode_bytes(b.drop_last()) + encode_byte(b.last())
            == encode_bytes(a) + (encode_bytes(b.drop_last()) + encode_byte(b.last())));
    }
}

/// A percent sign is encoded again: an escape such as `%3D` in the input
/// stands in the output as `%253D`.
pub proof fn lemma_percent_encoded_again(a: Seq<u8>, hi: u8, lo: u8, b: Seq<u8>)
    requires
        is_unreserved(hi),
        is_unreserved(lo),
    ensures
        encode_bytes(a + seq![0x25u8, hi, lo] + b) == encode_bytes(a) + seq![
            '%',
            '2',
            '5',
            hi as char,
            lo as char,
        ] + encode_bytes(b),
{
    let esc = seq![0x25u8, hi, lo];
    lemma_encode_bytes_concat(a + esc, b);
    lemma_encode_bytes_concat(a, esc);
    assert(esc.drop_last() =~= seq![0x25u8, hi]);
    assert(esc.drop_last().drop_last() =~= seq![0x25u8]);
    assert(seq![0x25u8].drop_last() =~= Seq::<u8>::empty());
    assert(encode_bytes(Seq::<u8>::empty()) =~= Seq::<char>::empty());
    assert(encode_byte(0x25u8) =~= seq!['%', '2', '5']);
    assert(encode_bytes(seq![0x25u8]) =~= seq!['%', '2', '5']);
    assert(encode_bytes(seq![0x25u8, hi]) =~= seq!['%', '2', '5', hi as char]);
    assert(encode_bytes(esc) =~= seq!['%', '2', '5', hi as char, lo as char]);
}

/// The UTF-8 bytes of two texts in a row are the bytes of the first, then
/// those of the second.
pub proof fn lemma_utf8_concat(a: Seq<char>, b: Seq<char>)
    ensures
        encode_utf8(a + b) == encode_utf8(a) + encode_utf8(b),
    decreases a.len(),
{
    if a.len() == 0 {
        assert(a + b == b);
        assert(encode_utf8(a) + encode_utf8(b) == encode_utf8(b));
    } else {
        lemma_utf8_concat(a.drop_first(), b);
        assert((a + b).drop_first() == a.drop_first() + b);
        assert(encode_utf8(a + b) == encode_scalar(a[0] as u32) + (encode_utf8(a.drop_first())
            + encode_utf8(b)));
        assert(encode_scalar(a[0] as u32) + (encode_utf8(a.drop_first()) + encode_utf8(b))
            == encode_utf8(a) + encode_utf8(b));
    }
}

/// Encoding distributes over concatenation of texts.
pub proof fn lemma_encode_text_concat(a: Seq<char>, b: Seq<char>)
    ensures
        encode_text(a + b) == encode_text(a) + encode_text(b),
{
    lemma_utf8_concat(a, b);
    lemma_encode_bytes_concat(encode_utf8(a), encode_utf8(b));
}

/// Encoding is applied once to whatever it is given: an escape `%3D` in a
/// text stands in its encoding as `%253D`, between the encodings of what
/// comes before and after it.
pub proof fn lemma_escape_encoded_again(a: Seq<char>, b: Seq<char>)
    ensures
        encode_text(a + seq!['%', '3', 'D'] + b) == encode_text(a) + seq!['%', '2', '5', '3', 'D']
            + encode_text(b),
{
    let esc = seq!['%', '3', 'D'];
    let bytes = seq![0x25u8, 0x33u8, 0x44u8];
    assert(is_ascii_chars(esc));
    is_ascii_chars_encode_utf8(esc);
    assert(encode_utf8(esc) =~= bytes);
    lemma_encode_text_concat(a + esc, b);
    lemma_encode_text_concat(a, esc);
    lemma_percent_encoded_again(Seq::<u8>::empty(), 0x33u8, 0x44u8, Seq::<u8>::empty());
    assert(Seq::<u8>::empty() + bytes + Seq::<u8>::empty() =~= bytes);
    assert(encode_bytes(Seq::<u8>::empty()) =~= Seq::<char>::empty());
    assert(encode_text(esc) =~= seq!['%', '2', '5', '3', 'D']);
}

/// The number of UTF-8 bytes of a text.
pub open spec fn utf8_len(s: Seq<char>) -> nat {
    encode_utf8(s).len()
}

/// What the encoder writes is ASCII, at most three characters for a byte.
pub proof fn lemma_encode_bytes_shape(bytes: Seq<u8>)
    ensures
        is_ascii_chars(encode_bytes(bytes)),
        encode_bytes(bytes).len() <= 3 * bytes.len(),
    decreases bytes.len(),
{
    if bytes.len() > 0 {
        let init = encode_bytes(bytes.drop_last());
        let last = encode_byte(bytes.last());
        lemma_encode_bytes_shape(bytes.drop_last());
        assert forall|i: int| 0 <= i < last.len() implies '\0' <= #[trigger] last[i] <= '\u{7f}' by {}
        assert forall|i: int| 0 <= i < (init + last).len() implies '\0' <= #[trigger] (init
            + last)[i] <= '\u{7f}' by {
            if i < init.len() {
                assert((init + last)[i] == init[i]);
            } else {
                assert((init + last)[i] == last[i - init.len()]);
            }
        }
    }
}

/// An encoded text has at most three bytes for each byte of the text.
pub proof fn lemma_encoded_len(s: Seq<char>)
    ensures
        utf8_len(encode_text(s)) <= 3 * utf8_len(s),
{
    lemma_encode_bytes_shape(encode_utf8(s));
    is_ascii_chars_encode_utf8(encode_text(s));
}

/// A text has at most four bytes for each character.
pub proof fn lemma_utf8_len_at_most(s: Seq<char>)
    ensures
        utf8_len(s) <= 4 * s.len(),
    decreases s.len(),
{
    if s.len() > 0 {
        lemma_utf8_len_at_most(s.drop_first());
    }
}

fn is_unreserved_byte(b: u8) -> (r: bool)
    ensures
        r == is_unreserved(b),
{
    (0x41 <= b && b <= 0x5A) || (0x61 <= b && b <= 0x7A) || (0x30 <= b && b <= 0x39) || b == 0x2D
        || b == 0x2E || b == 0x5F || b == 0x7E
}

fn hex_char(n: u8) -> (c: char)
    requires
        n < 16,
    ensures
        c == hex_digit(n),
{
    if n < 10 {
        (0x30 + n) as char
    } else {
        (0x37 + n) as char
    }
}

/// Appends the percent-encoding of `s` to `output`.
pub fn encode_to(s: &str, output: &mut String)
    ensures
        final(output)@ == old(output)@ + encode_text(s@),
{
    let bytes = s.as_bytes();
    let n = bytes.len();
    let mut i: usize = 0;
    assert(bytes@.take(0) =~= Seq::<u8>::empty());
    assert(output@ =~= old(output)@ + encode_bytes(bytes@.take(0)));
    while i < n
        invariant
            i <= n,
            n == bytes@.len(),
            bytes@ == encode_utf8(s@),
            output@ == old(output)@ + encode_bytes(bytes@.take(i as int)),
        decreases n - i,
    {
        let b = bytes[i];
        let ghost before = output@;
        if is_unreserved_byte(b) {
            output.push(b as char);
        } else {
            output.push('%');
            output.push(hex_char(b / 16));
            output.push(hex_char(b % 16));
        }
        proof {
            let next = bytes@.take(i + 1);
            assert(next.drop_last() =~= bytes@.take(i as int));
            assert(next.last() == b);
            assert(output@ =~= before + encode_byte(b));
            assert(output@ =~= old(output)@ + encode_bytes(next));
        }
        i += 1;
    }
    assert(bytes@.take(n as int) =~= bytes@);
}

/// The percent-encoding of `s` as a new string.
pub fn encode(s: &str) -> (r: String)
    ensures
        r@ == encode_text(s@),
{
    let mut r = String::new();
    encode_to(s, &mut r);
    assert(Seq::<char>::empty() + encode_text(s@) =~= encode_text(s@));
    r
}

} // verus!
