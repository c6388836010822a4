//! Base64 (RFC 4648, standard alphabet, padded) and UTF-8 text handling.
use vstd::prelude::*;
use base64::Engine;
use vstd::utf8::*;

verus! {

/// The Base64 symbol for a 6-bit value.
pub open spec fn b64_symbol(v: int) -> char
    recommends 0 <= v < 64,
{
    if v < 26 {
        (65 + v) as char
    } else if v < 52 {
        (97 + v - 26) as char
    } else if v < 62 {
        (48 + v - 52) as char
    } else if v == 62 {
        '+'
    } else {
        '/'
    }
}

/// Standard padded Base64 encoding of a byte sequence: each group of three
/// bytes becomes four symbols; a final group of one or two bytes is padded
/// with `=` to four symbols.
pub open spec fn b64_encode(b: Seq<u8>) -> Seq<char>
    decreases b.len(),
{
    if b.len() == 0 {
        seq![]
    } else {
        let b0 = b[0] as int;
        let b1 = if b.len() > 1 { b[1] as int } else { 0 };
        let b2 = if b.len() > 2 { b[2] as int } else { 0 };
        let s0 = b64_symbol(b0 / 4);
        let s1 = b64_symbol((b0 % 4) * 16 + b1 / 16);
        let s2 = b64_symbol((b1 % 16) * 4 + b2 / 64);
        let s3 = b64_symbol(b2 % 64);
        if b.len() == 1 {
            seq![s0, s1, '=', '=']
        } else if b.len() == 2 {
            seq![s0, s1, s2, '=']
        } else {
            seq![s0, s1, s2, s3] + b64_encode(b.skip(3))
        }
    }
}

/// The length of the padded Base64 text for `n` input bytes.
pub open spec fn b64_encoded_len(n: nat) -> nat {
    4 * ((n + 2) / 3)
}


proof fn lemma_b64_symbol_injective(x: int, y: int)
    requires
        0 <= x < 64,
        0 <= y < 64,
        b64_symbol(x) == b64_symbol(y),
    ensures
        x == y,
{
    assert((b64_symbol(x) as u32) as int == b64_symbol_code(x));
    assert((b64_symbol(y) as u32) as int == b64_symbol_code(y));
}

/// The code point of the symbol for a 6-bit value.
spec fn b64_symbol_code(v: int) -> int {
    if v < 26 {
        65 + v
    } else if v < 52 {
        97 + v - 26
    } else if v < 62 {
        48 + v - 52
    } else if v == 62 {
        43
    } else {
        47
    }
}

proof fn lemma_b64_symbol_not_pad(x: int)
    requires
        0 <= x < 64,
    ensures
        b64_symbol(x) != '=',
        (b64_symbol(x) as u32) as int == b64_symbol_code(x),
{
}

/// Two byte groups with the same four symbols are the same bytes.
proof fn lemma_b64_group_injective(b0: int, b1: int, b2: int, c0: int, c1: int, c2: int)
    requires
        0 <= b0 < 256, 0 <= b1 < 256, 0 <= b2 < 256,
        0 <= c0 < 256, 0 <= c1 < 256, 0 <= c2 < 256,
        b0 / 4 == c0 / 4,
        (b0 % 4) * 16 + b1 / 16 == (c0 % 4) * 16 + c1 / 16,
        (b1 % 16) * 4 + b2 / 64 == (c1 % 16) * 4 + c2 / 64,
        b2 % 64 == c2 % 64,
    ensures
        b0 == c0, b1 == c1, b2 == c2,
{
}

/// Base64 encoding is injective: distinct byte sequences have distinct encodings.
pub proof fn lemma_b64_encode_injective(a: Seq<u8>, b: Seq<u8>)
    requires
        b64_encode(a) == b64_encode(b),
    ensures
        a == b,
    decreases a.len(),
{
    let ea = b64_encode(a);
    let eb = b64_encode(b);
    if a.len() == 0 || b.len() == 0 {
        if a.len() != 0 {
            assert(ea.len() > 0);
        }
        if b.len() != 0 {
            assert(eb.len() > 0);
        }
        assert(a =~= b);
    } else {
        let a0 = a[0] as int;
        let a1 = if a.len() > 1 { a[1] as int } else { 0 };
        let a2 = if a.len() > 2 { a[2] as int } else { 0 };
        let c0 = b[0] as int;
        let c1 = if b.len() > 1 { b[1] as int } else { 0 };
        let c2 = if b.len() > 2 { b[2] as int } else { 0 };
        lemma_b64_symbol_not_pad((a0 % 4) * 16 + a1 / 16);
        lemma_b64_symbol_not_pad((a1 % 16) * 4 + a2 / 64);
        lemma_b64_symbol_not_pad(a2 % 64);
        lemma_b64_symbol_not_pad((c1 % 16) * 4 + c2 / 64);
        lemma_b64_symbol_not_pad(c2 % 64);
        assert(ea[0] == eb[0] && ea[1] == eb[1] && ea[2] == eb[2] && ea[3] == eb[3]);
        lemma_b64_symbol_injective(a0 / 4, c0 / 4);
        lemma_b64_symbol_injective((a0 % 4) * 16 + a1 / 16, (c0 % 4) * 16 + c1 / 16);
        if a.len() > 1 && b.len() > 1 {
            lemma_b64_symbol_injective((a1 % 16) * 4 + a2 / 64, (c1 % 16) * 4 + c2 / 64);
        }
        if a.len() > 2 && b.len() > 2 {
            lemma_b64_symbol_injective(a2 % 64, c2 % 64);
        }
        assert(a.len() == b.len() || (a.len() >= 3 && b.len() >= 3));
        if a.len() >= 3 {
            lemma_b64_group_injective(a0, a1, a2, c0, c1, c2);
            assert(ea.skip(4) =~= b64_encode(a.skip(3)));
            assert(eb.skip(4) =~= b64_encode(b.skip(3)));
            lemma_b64_encode_injective(a.skip(3), b.skip(3));
            assert(a =~= seq![a[0], a[1], a[2]] + a.skip(3));
            assert(b =~= seq![b[0], b[1], b[2]] + b.skip(3));
        } else {
            assert(a0 / 4 == c0 / 4);
            if a.len() == 2 {
                assert(((a0 % 4) * 16 + a1 / 16) == ((c0 % 4) * 16 + c1 / 16));
                assert((a1 % 16) * 4 == (c1 % 16) * 4);
            }
            assert(a0 == c0);
            assert(a =~= b);
        }
    }
}


/// What standard Base64 decoding gives for a text: the bytes whose padded
/// encoding is exactly that text, or `None` when there are none.
pub closed spec fn b64_decode(text: Seq<u8>) -> Option<Seq<u8>> {
    if exists|v: Seq<u8>| encode_utf8(#[trigger] b64_encode(v)) == text {
        Some(choose|v: Seq<u8>| encode_utf8(#[trigger] b64_encode(v)) == text)
    } else {
        None
    }
}

/// Every symbol of a Base64 text is an ASCII character other than `|`.
pub proof fn lemma_b64_encode_chars(b: Seq<u8>)
    ensures
        is_ascii_chars(b64_encode(b)),
        forall|i: int| 0 <= i < b64_encode(b).len() ==> #[trigger] b64_encode(b)[i] != '|',
        b64_encode(b).len() == b64_encoded_len(b.len()),
    decreases b.len(),
{
    if b.len() > 0 {
        let b0 = b[0] as int;
        let b1 = if b.len() > 1 { b[1] as int } else { 0 };
        let b2 = if b.len() > 2 { b[2] as int } else { 0 };
        lemma_b64_symbol_not_pad(b0 / 4);
        lemma_b64_symbol_not_pad((b0 % 4) * 16 + b1 / 16);
        lemma_b64_symbol_not_pad((b1 % 16) * 4 + b2 / 64);
        lemma_b64_symbol_not_pad(b2 % 64);
        if b.len() >= 3 {
            lemma_b64_encode_chars(b.skip(3));
        }
    }
}

/// Decoding the UTF-8 bytes of an encoding gives back the encoded bytes.
pub proof fn lemma_b64_decode_encode(x: Seq<u8>)
    ensures
        b64_decode(encode_utf8(b64_encode(x))) == Some(x),
{
    let text = encode_utf8(b64_encode(x));
    assert(encode_utf8(b64_encode(x)) == text);
    let v = choose|v: Seq<u8>| encode_utf8(#[trigger] b64_encode(v)) == text;
    lemma_b64_decode_unique(v, x);
}

/// Two byte sequences whose encodings have the same UTF-8 bytes are equal.
pub proof fn lemma_b64_decode_unique(v: Seq<u8>, x: Seq<u8>)
    requires
        encode_utf8(b64_encode(v)) == encode_utf8(b64_encode(x)),
    ensures
        v == x,
{
    encode_utf8_decode_utf8(b64_encode(v));
    encode_utf8_decode_utf8(b64_encode(x));
    lemma_b64_encode_injective(v, x);
}

/// The result of the decoding call is the one `b64_decode` describes.
pub proof fn lemma_b64_decode_result(input: Seq<u8>, res: Result<Vec<u8>, base64::DecodeError>)
    requires
        match res {
            Ok(v) => encode_utf8(b64_encode(v@)) == input,
            Err(_) => forall|v: Seq<u8>| encode_utf8(#[trigger] b64_encode(v)) != input,
        },
    ensures
        match res {
            Ok(v) => b64_decode(input) == Some(v@),
            Err(_) => b64_decode(input) is None,
        },
{
    match res {
        Ok(v) => {
            assert(encode_utf8(b64_encode(v@)) == input);
            let w = choose|w: Seq<u8>| encode_utf8(#[trigger] b64_encode(w)) == input;
            lemma_b64_decode_unique(w, v@);
        },
        Err(_) => {},
    }
}

#[verifier::external_type_specification]
#[verifier::external_body]
pub struct ExUtf8Error(core::str::Utf8Error);

#[verifier::external_type_specification]
#[verifier::external_body]
pub struct ExFromUtf8Error(std::string::FromUtf8Error);

/// Calls `core::str::from_utf8`, which succeeds exactly on valid UTF-8 and
/// then reads the bytes as text.
#[verifier::external_body]
pub(crate) fn str_from_utf8(bytes: &[u8]) -> (res: Result<&str, core::str::Utf8Error>)
    ensures
        res is Ok <==> valid_utf8(bytes@),
        res matches Ok(s) ==> s@ == decode_utf8(bytes@),
{
    core::str::from_utf8(bytes)
}

/// Calls `String::from_utf8`, which succeeds exactly on valid UTF-8 and
/// then reads the bytes as text.
#[verifier::external_body]
pub(crate) fn string_from_utf8(bytes: Vec<u8>) -> (res: Result<String, std::string::FromUtf8Error>)
    ensures
        res is Ok <==> valid_utf8(bytes@),
        res matches Ok(s) ==> s@ == decode_utf8(bytes@),
{
    String::from_utf8(bytes)
}

#[verifier::external_type_specification]
#[verifier::external_body]
pub struct ExDecodeError(base64::DecodeError);

/// Calls `base64::engine::general_purpose::STANDARD.encode`, which writes
/// the padded standard-alphabet Base64 text of `input`. It panics only when
/// the length of that text overflows `usize`, which `requires` rules out.
#[verifier::external_body]
pub(crate) fn b64_encode_exec(input: &[u8]) -> (res: String)
    requires
        b64_encoded_len(input@.len()) <= usize::MAX,
    ensures
        res@ == b64_encode(input@),
{
    base64::engine::general_purpose::STANDARD.encode(input)
}

/// Calls `base64::engine::general_purpose::STANDARD.decode`. That engine
/// requires canonical padding and rejects trailing bits in the last symbol,
/// so it accepts exactly the texts that `STANDARD.encode` produces: it
/// returns the bytes whose encoding is the input, and an error when no
/// byte sequence encodes to the input.
#[verifier::external_body]
pub(crate) fn b64_decode_exec(input: &[u8]) -> (res: Result<Vec<u8>, base64::DecodeError>)
    ensures
        match res {
            Ok(v) => encode_utf8(b64_encode(v@)) == input@,
            Err(_) => forall|v: Seq<u8>| encode_utf8(#[trigger] b64_encode(v)) != input@,
        },
{
    base64::engine::general_purpose::STANDARD.decode(input)
}

} // verus!
