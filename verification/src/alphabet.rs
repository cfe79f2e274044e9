use vstd::prelude::*;

verus! {

/// The byte of the first symbol of the binary alphabet, the letter `a`.
pub const SYM_A: u8 = 97;

/// The byte of the second symbol of the binary alphabet, the letter `b`.
pub const SYM_B: u8 = 98;

/// True exactly for the two bytes of the binary alphabet.
pub open spec fn is_symbol(byte: u8) -> bool {
    byte == SYM_A || byte == SYM_B
}

/// A word over the binary alphabet: every byte is `a` or `b`.
pub open spec fn is_binary_word(word: Seq<u8>) -> bool {
    forall|i: int| 0 <= i < word.len() ==> is_symbol(#[trigger] word[i])
}

/// Extending a binary word by a symbol gives a binary word, and every
/// prefix of a binary word is one.
pub proof fn lemma_binary_word_push(word: Seq<u8>, byte: u8)
    ensures
        is_binary_word(word.push(byte)) <==> is_binary_word(word) && is_symbol(byte),
{
    if is_binary_word(word.push(byte)) {
        assert(word.push(byte)[word.len() as int] == byte);
        assert forall|i: int| 0 <= i < word.len() implies is_symbol(#[trigger] word[i]) by {
            assert(word.push(byte)[i] == word[i]);
        }
    }
}

/// Two characters with the same code point are the same character.
pub proof fn lemma_code_point_injective(c1: char, c2: char)
    ensures
        c1 as u32 == c2 as u32 <==> c1 == c2,
{
    vstd::utf8::char_u32_cast(c1, c1 as u32);
    vstd::utf8::char_u32_cast(c2, c2 as u32);
}

} // verus!
