use vstd::prelude::*;
use vstd::utf8::{decode_utf8, encode_scalar, encode_utf8, valid_utf8};

verus! {

#[verifier::external_type_specification]
#[verifier::external_body]
pub struct ExUtf8Error(core::str::Utf8Error);

/// `String::push` of std: the character is appended to the string.
#[verifier::external_body]
pub(crate) fn string_push(text: &mut String, symbol: char)
    ensures
        final(text)@ == old(text)@.push(symbol),
{
    text.push(symbol)
}

/// `core::str::from_utf8` of std: the bytes are accepted exactly if they
/// are well-formed UTF-8, and the string then holds the characters that
/// they encode.
#[verifier::external_body]
pub(crate) fn utf8_text(bytes: &[u8]) -> (text: Result<&str, core::str::Utf8Error>)
    ensures
        text is Ok <==> valid_utf8(bytes@),
        text matches Ok(s) ==> s@ == decode_utf8(bytes@),
{
    core::str::from_utf8(bytes)
}

/// The UTF-8 encoding of one character is the encoding of its scalar
/// value, one to four bytes long.
pub proof fn lemma_symbol_bytes(symbol: char)
    ensures
        encode_utf8(seq![symbol]) == encode_scalar(symbol as u32),
        1 <= encode_utf8(seq![symbol]).len() <= 4,
        valid_utf8(encode_utf8(seq![symbol])),
        decode_utf8(encode_utf8(seq![symbol])) == seq![symbol],
{
    let one = seq![symbol];
    assert(one.drop_first() =~= Seq::<char>::empty());
    assert(encode_utf8(one.drop_first()) =~= Seq::<u8>::empty());
    assert(encode_utf8(one) =~= encode_scalar(symbol as u32));
    vstd::utf8::encode_utf8_valid_utf8(one);
    vstd::utf8::encode_utf8_decode_utf8(one);
}

/// A text has no more characters than its UTF-8 encoding has bytes.
pub proof fn lemma_utf8_len(text: Seq<char>)
    ensures
        text.len() <= encode_utf8(text).len(),
    decreases text.len(),
{
    if text.len() > 0 {
        lemma_utf8_len(text.drop_first());
        vstd::utf8::char_is_scalar(text[0]);
    }
}

/// The UTF-8 bytes of one character.
pub fn symbol_bytes(symbol: char) -> (bytes: Vec<u8>)
    ensures
        bytes@ == encode_utf8(seq![symbol]),
        1 <= bytes@.len() <= 4,
{
    let mut text = String::new();
    string_push(&mut text, symbol);
    proof {
        assert(text@ =~= seq![symbol]);
        lemma_symbol_bytes(symbol);
    }
    text.as_str().as_bytes_vec()
}

} // verus!
