//! How a text relates to the UTF-8 bytes that hold it.
//!
//! The search works on bytes; its contracts speak of characters. The lemmas
//! here carry facts from one side to the other.

use vstd::prelude::*;
use vstd::utf8::*;

verus! {

/// Encoding distributes over concatenation.
pub proof fn lemma_encode_concat(a: Seq<char>, b: Seq<char>)
    ensures
        encode_utf8(a + b) == encode_utf8(a) + encode_utf8(b),
    decreases a.len(),
{
    if a.len() == 0 {
        assert(a + b =~= b);
        assert(encode_utf8(a) + encode_utf8(b) =~= encode_utf8(b));
    } else {
        lemma_encode_concat(a.drop_first(), b);
        assert((a + b).drop_first() =~= a.drop_first() + b);
        assert(encode_utf8(a + b) =~= encode_utf8(a) + encode_utf8(b));
    }
}

/// Two texts with the same bytes are the same text.
pub proof fn lemma_encode_injective(a: Seq<char>, b: Seq<char>)
    requires
        encode_utf8(a) == encode_utf8(b),
    ensures
        a == b,
{
    encode_utf8_decode_utf8(a);
    encode_utf8_decode_utf8(b);
}

/// The bytes of a non-empty text start with the bytes of its first
/// character: one leading byte, then continuation bytes only. A character
/// below 128 is held in a single byte of the same value, and every byte of
/// any other character is 128 or more.
pub proof fn lemma_first_char_bytes(text: Seq<char>)
    requires
        text.len() > 0,
    ensures
        ({
            let bytes = encode_utf8(text);
            let width = encode_scalar(text[0] as u32).len();
            &&& 1 <= width <= 4
            &&& width <= bytes.len()
            &&& width == length_of_first_scalar(bytes)
            &&& bytes == encode_scalar(text[0] as u32) + encode_utf8(text.drop_first())
            &&& !is_continuation_byte(bytes[0])
            &&& forall|j: int| 1 <= j < width ==> is_continuation_byte(#[trigger] bytes[j])
            &&& (bytes[0] < 0x80 <==> (text[0] as u32) < 0x80)
            &&& bytes[0] < 0x80 ==> width == 1 && text[0] == bytes[0] as char
        }),
{
    let bytes = encode_utf8(text);
    encode_utf8_first_scalar(text);
    let first = bytes[0];
    if is_leading_byte_width_1(first) {
        assert(first & 0x7F == first) by (bit_vector)
            requires
                first <= 0x7F,
        ;
        char_u32_cast(text[0], first as u32);
    }
}

/// The bytes of a text of one character are the bytes of that character.
pub proof fn lemma_encode_single(c: char)
    ensures
        encode_utf8(seq![c]) == encode_scalar(c as u32),
{
    reveal_with_fuel(encode_utf8, 2);
    assert(seq![c].drop_first() =~= Seq::<char>::empty());
    assert(encode_scalar(c as u32) + Seq::<u8>::empty() =~= encode_scalar(c as u32));
}

} // verus!
