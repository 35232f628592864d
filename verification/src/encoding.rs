//! Bytes as text: base64 and hexadecimal.

use base64::Engine;
use vstd::prelude::*;

verus! {

/// The symbol of a six-bit value; the last two symbols depend on the alphabet.
pub open spec fn symbol(v: int, sym62: char, sym63: char) -> char {
    if v < 26 {
        (65 + v) as u8 as char
    } else if v < 52 {
        (71 + v) as u8 as char
    } else if v < 62 {
        (v - 4) as u8 as char
    } else if v == 62 {
        sym62
    } else {
        sym63
    }
}

/// Three bytes make four symbols. One or two bytes that are left make two or
/// three symbols, filled up with `=` where the encoding pads.
pub open spec fn base64_of(bytes: Seq<u8>, sym62: char, sym63: char, pad: bool) -> Seq<char>
    decreases bytes.len(),
{
    let a = bytes[0] as int;
    let b = bytes[1] as int;
    let c = bytes[2] as int;
    if bytes.len() == 0 {
        Seq::empty()
    } else if bytes.len() == 1 {
        seq![symbol(a / 4, sym62, sym63), symbol(a % 4 * 16, sym62, sym63)] + if pad {
            seq!['=', '=']
        } else {
            Seq::empty()
        }
    } else if bytes.len() == 2 {
        seq![
            symbol(a / 4, sym62, sym63),
            symbol(a % 4 * 16 + b / 16, sym62, sym63),
            symbol(b % 16 * 4, sym62, sym63),
        ] + if pad {
            seq!['=']
        } else {
            Seq::empty()
        }
    } else {
        seq![
            symbol(a / 4, sym62, sym63),
            symbol(a % 4 * 16 + b / 16, sym62, sym63),
            symbol(b % 16 * 4 + c / 64, sym62, sym63),
            symbol(c % 64, sym62, sym63),
        ] + base64_of(bytes.skip(3), sym62, sym63, pad)
    }
}

/// The standard base64 encoding, with padding.
pub open spec fn base64(bytes: Seq<u8>) -> Seq<char> {
    base64_of(bytes, '+', '/', true)
}

/// The base64 encoding for URLs, without padding.
pub open spec fn base64_url(bytes: Seq<u8>) -> Seq<char> {
    base64_of(bytes, '-', '_', false)
}

/// `base64`'s engine `STANDARD`, encoding: the standard encoding with padding.
#[verifier::external_body]
pub(crate) fn encode_base64(bytes: &[u8]) -> (text: String)
    ensures
        text@ == base64(bytes@),
{
    base64::engine::general_purpose::STANDARD.encode(bytes)
}

/// `base64`'s engine `STANDARD`, decoding: it accepts exactly the texts that the
/// same engine gives for some bytes, padding and unused bits included, and then
/// gives those bytes.
#[verifier::external_body]
pub(crate) fn decode_base64(text: &str) -> (bytes: Option<Vec<u8>>)
    ensures
        match bytes {
            Some(decoded) => base64(decoded@) == text@,
            None => forall|any: Seq<u8>| #[trigger] base64(any) != text@,
        },
{
    base64::engine::general_purpose::STANDARD.decode(text).ok()
}

/// `base64`'s engine `URL_SAFE_NO_PAD`, encoding: the encoding for URLs, without
/// padding.
#[verifier::external_body]
pub(crate) fn encode_base64_url(bytes: &[u8]) -> (text: String)
    ensures
        text@ == base64_url(bytes@),
{
    base64::engine::general_purpose::URL_SAFE_NO_PAD.encode(bytes)
}

proof fn lemma_symbols_differ(v: int, w: int)
    requires
        0 <= v < 64,
        0 <= w < 64,
        symbol(v, '+', '/') == symbol(w, '+', '/'),
    ensures
        v == w,
{
}

proof fn lemma_symbol_is_no_padding(v: int)
    requires
        0 <= v < 64,
    ensures
        symbol(v, '+', '/') != '=',
{
}

/// Different bytes have different encodings.
pub proof fn base64_is_injective(a: Seq<u8>, b: Seq<u8>)
    requires
        base64(a) == base64(b),
    ensures
        a == b,
    decreases a.len(),
{
    let left = base64(a);
    let right = base64(b);
    if a.len() == 0 || b.len() == 0 {
        if a.len() > 0 {
            assert(left.len() > 0);
        }
        if b.len() > 0 {
            assert(right.len() > 0);
        }
        assert(a =~= b);
    } else {
        let (a0, a1, a2) = (a[0] as int, a[1] as int, a[2] as int);
        let (b0, b1, b2) = (b[0] as int, b[1] as int, b[2] as int);
        assert(left[0] == symbol(a0 / 4, '+', '/'));
        assert(right[0] == symbol(b0 / 4, '+', '/'));
        lemma_symbols_differ(a0 / 4, b0 / 4);
        let a_second = if a.len() == 1 { a0 % 4 * 16 } else { a0 % 4 * 16 + a1 / 16 };
        let b_second = if b.len() == 1 { b0 % 4 * 16 } else { b0 % 4 * 16 + b1 / 16 };
        assert(left[1] == symbol(a_second, '+', '/'));
        assert(right[1] == symbol(b_second, '+', '/'));
        lemma_symbols_differ(a_second, b_second);
        assert(a0 == b0);
        let a_third = if a.len() == 2 { a1 % 16 * 4 } else { a1 % 16 * 4 + a2 / 64 };
        let b_third = if b.len() == 2 { b1 % 16 * 4 } else { b1 % 16 * 4 + b2 / 64 };
        if a.len() >= 2 {
            assert(left[2] == symbol(a_third, '+', '/'));
            lemma_symbol_is_no_padding(a_third);
        } else {
            assert(left[2] == '=');
        }
        if b.len() >= 2 {
            assert(right[2] == symbol(b_third, '+', '/'));
            lemma_symbol_is_no_padding(b_third);
        } else {
            assert(right[2] == '=');
        }
        if a.len() >= 2 && b.len() >= 2 {
            lemma_symbols_differ(a_third, b_third);
            assert(a1 == b1);
            if a.len() >= 3 {
                assert(left[3] == symbol(a2 % 64, '+', '/'));
                lemma_symbol_is_no_padding(a2 % 64);
            } else {
                assert(left[3] == '=');
            }
            if b.len() >= 3 {
                assert(right[3] == symbol(b2 % 64, '+', '/'));
                lemma_symbol_is_no_padding(b2 % 64);
            } else {
                assert(right[3] == '=');
            }
            if a.len() >= 3 && b.len() >= 3 {
                lemma_symbols_differ(a2 % 64, b2 % 64);
                assert(a2 == b2);
                assert(left.skip(4) =~= base64(a.skip(3)));
                assert(right.skip(4) =~= base64(b.skip(3)));
                base64_is_injective(a.skip(3), b.skip(3));
                assert(a =~= a.take(3) + a.skip(3));
                assert(b =~= b.take(3) + b.skip(3));
                assert(a.take(3) =~= b.take(3));
            } else {
                assert(a =~= b);
            }
        } else {
            assert(a =~= b);
        }
    }
}

/// The hexadecimal digit of a four-bit value.
pub open spec fn hex_digit(v: int) -> char {
    if v < 10 {
        (48 + v) as u8 as char
    } else {
        (87 + v) as u8 as char
    }
}

/// The value of a hexadecimal digit, in either case.
pub open spec fn hex_value(c: char) -> Option<int> {
    if '0' <= c <= '9' {
        Some(c as int - 48)
    } else if 'a' <= c <= 'f' {
        Some(c as int - 87)
    } else if 'A' <= c <= 'F' {
        Some(c as int - 55)
    } else {
        None
    }
}

/// Bytes in hexadecimal: two digits each, in lower case.
pub open spec fn hex(bytes: Seq<u8>) -> Seq<char> {
    Seq::new(
        2 * bytes.len(),
        |i: int|
            hex_digit(
                if i % 2 == 0 {
                    bytes[i / 2] as int / 16
                } else {
                    bytes[i / 2] as int % 16
                },
            ),
    )
}

/// The bytes that a text in hexadecimal stands for: an even number of digits, in
/// either case.
pub open spec fn unhex(s: Seq<char>) -> Option<Seq<u8>> {
    if s.len() % 2 == 0 && forall|i: int| 0 <= i < s.len() ==> hex_value(#[trigger] s[i]) is Some {
        Some(
            Seq::new(
                s.len() / 2,
                |i: int|
                    (16 * hex_value(s[2 * i])->Some_0 + hex_value(s[2 * i + 1])->Some_0) as u8,
            ),
        )
    } else {
        None
    }
}

/// `hex::encode`: two lower-case digits for each byte.
#[verifier::external_body]
pub(crate) fn encode_hex(bytes: &[u8]) -> (text: String)
    ensures
        text@ == hex(bytes@),
{
    hex::encode(bytes)
}

/// `hex::decode`: it accepts an even number of digits, in either case, and gives
/// one byte for two digits.
#[verifier::external_body]
pub(crate) fn decode_hex(text: &str) -> (bytes: Option<Vec<u8>>)
    ensures
        match bytes {
            Some(decoded) => unhex(text@) == Some(decoded@),
            None => unhex(text@) is None,
        },
{
    hex::decode(text).ok()
}

/// Reading hexadecimal gives back what was written.
pub proof fn unhex_undoes_hex(bytes: Seq<u8>)
    ensures
        unhex(hex(bytes)) == Some(bytes),
{
    let s = hex(bytes);
    assert forall|i: int| 0 <= i < s.len() implies hex_value(#[trigger] s[i]) is Some by {}
    let back = unhex(s)->Some_0;
    assert forall|i: int| 0 <= i < bytes.len() implies back[i] == bytes[i] by {
        assert((2 * i) / 2 == i && (2 * i + 1) / 2 == i);
        assert(hex_value(s[2 * i]) == Some(bytes[i] as int / 16));
        assert(hex_value(s[2 * i + 1]) == Some(bytes[i] as int % 16));
    }
    assert(back =~= bytes);
}

/// The symbols of base64 are the capitals, the small letters, the digits and two more, in
/// this order.
pub proof fn symbols_have_their_places(v: int, sym62: char, sym63: char)
    requires
        0 <= v < 64,
    ensures
        v < 26 ==> 'A' <= symbol(v, sym62, sym63) <= 'Z' && symbol(v, sym62, sym63) as int == 'A' as int
            + v,
        26 <= v < 52 ==> 'a' <= symbol(v, sym62, sym63) <= 'z' && symbol(v, sym62, sym63) as int
            == 'a' as int + (v - 26),
        52 <= v < 62 ==> '0' <= symbol(v, sym62, sym63) <= '9' && symbol(v, sym62, sym63) as int
            == '0' as int + (v - 52),
        v == 62 ==> symbol(v, sym62, sym63) == sym62,
        v == 63 ==> symbol(v, sym62, sym63) == sym63,
{
}

} // verus!
