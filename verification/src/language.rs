use crate::agreement::lemma_reference_automata_agree;
use crate::alphabet::{is_binary_word, is_symbol, lemma_binary_word_push, SYM_A, SYM_B};
use crate::dfa::min_dfa;
use crate::nfa::reference_nfa;
use crate::subset::leads;
use crate::universal::reference_universal;
use vstd::prelude::*;
use vstd::utf8::encode_utf8;

verus! {

/// The word of one symbol.
pub open spec fn letters1(s1: u8) -> Seq<u8> {
    Seq::<u8>::empty().push(s1)
}

/// The word of two symbols.
pub open spec fn letters2(s1: u8, s2: u8) -> Seq<u8> {
    letters1(s1).push(s2)
}

/// The word of three symbols.
pub open spec fn letters3(s1: u8, s2: u8, s3: u8) -> Seq<u8> {
    letters2(s1, s2).push(s3)
}

/// The word of four symbols.
pub open spec fn letters4(s1: u8, s2: u8, s3: u8, s4: u8) -> Seq<u8> {
    letters3(s1, s2, s3).push(s4)
}

/// The word of five symbols.
pub open spec fn letters5(s1: u8, s2: u8, s3: u8, s4: u8, s5: u8) -> Seq<u8> {
    letters4(s1, s2, s3, s4).push(s5)
}

/// The word `aba`.
pub open spec fn block_aba() -> Seq<u8> {
    letters3(SYM_A, SYM_B, SYM_A)
}

/// The word `bab`.
pub open spec fn block_bab() -> Seq<u8> {
    letters3(SYM_B, SYM_A, SYM_B)
}

/// The word `aabb`.
pub open spec fn block_aabb() -> Seq<u8> {
    letters4(SYM_A, SYM_A, SYM_B, SYM_B)
}

/// `word` ends with `ending`.
pub open spec fn ends_in(word: Seq<u8>, ending: Seq<u8>) -> bool {
    &&& ending.len() <= word.len()
    &&& word.subrange(word.len() - ending.len(), word.len() as int) == ending
}

/// `word` without its last `count` bytes.
pub open spec fn without_last(word: Seq<u8>, count: nat) -> Seq<u8> {
    word.take(word.len() - count)
}

/// `word` is made of blocks: it is a concatenation of any number of the
/// words `aba`, `bab` and `aabb`, none included.
pub open spec fn is_blocks(word: Seq<u8>) -> bool
    decreases word.len(),
{
    ||| word.len() == 0
    ||| (ends_in(word, block_aba()) && is_blocks(without_last(word, 3)))
    ||| (ends_in(word, block_bab()) && is_blocks(without_last(word, 3)))
    ||| (ends_in(word, block_aabb()) && is_blocks(without_last(word, 4)))
}

/// `word` is made of blocks followed by `ending`.
pub open spec fn after_blocks(word: Seq<u8>, ending: Seq<u8>) -> bool {
    ends_in(word, ending) && is_blocks(without_last(word, ending.len()))
}

/// `word` is made of blocks, two symbols and `bba`.
pub open spec fn is_core(word: Seq<u8>) -> bool {
    ||| after_blocks(word, letters5(SYM_A, SYM_A, SYM_B, SYM_B, SYM_A))
    ||| after_blocks(word, letters5(SYM_A, SYM_B, SYM_B, SYM_B, SYM_A))
    ||| after_blocks(word, letters5(SYM_B, SYM_A, SYM_B, SYM_B, SYM_A))
    ||| after_blocks(word, letters5(SYM_B, SYM_B, SYM_B, SYM_B, SYM_A))
}

/// `word` belongs to the reference language, the language of the pattern
/// `(aba|bab|aabb)*(a|b)(a|b)bba(aba|bab|aabb)*`: it is made of blocks, two
/// symbols and `bba`, or it is a shorter word of the language followed by
/// a block.
pub open spec fn in_language(word: Seq<u8>) -> bool
    decreases word.len(),
{
    ||| is_core(word)
    ||| (ends_in(word, block_aba()) && in_language(without_last(word, 3)))
    ||| (ends_in(word, block_bab()) && in_language(without_last(word, 3)))
    ||| (ends_in(word, block_aabb()) && in_language(without_last(word, 4)))
}

/// `word` is a word of the language followed by `ending`.
pub open spec fn after_language(word: Seq<u8>, ending: Seq<u8>) -> bool {
    ends_in(word, ending) && in_language(without_last(word, ending.len()))
}

/// A word ends with an ending and one more symbol exactly when the symbol
/// is its last and the ending ends the rest; what comes before the ending
/// is the same either way.
pub proof fn lemma_ends_in_push(word: Seq<u8>, ending: Seq<u8>, last: u8, symbol: u8)
    ensures
        ends_in(word.push(symbol), ending.push(last)) <==> last == symbol && ends_in(word, ending),
        ending.len() <= word.len() ==> without_last(word.push(symbol), ending.len() + 1)
            == without_last(word, ending.len()),
{
    let longer = word.push(symbol);
    let full = ending.push(last);
    if ending.len() <= word.len() {
        let from = word.len() - ending.len();
        assert(without_last(longer, ending.len() + 1) =~= without_last(word, ending.len()));
        let tail = longer.subrange(longer.len() - full.len(), longer.len() as int);
        assert(tail[ending.len() as int] == symbol);
        assert(full[ending.len() as int] == last);
        if last == symbol && ends_in(word, ending) {
            assert forall|i: int| 0 <= i < full.len() implies tail[i] == full[i] by {
                if i < ending.len() {
                    assert(word.subrange(from, word.len() as int)[i] == ending[i]);
                }
            }
            assert(tail =~= full);
        }
        if ends_in(longer, full) {
            assert forall|i: int| 0 <= i < ending.len() implies word.subrange(
                from,
                word.len() as int,
            )[i] == ending[i] by {
                assert(tail[i] == full[i]);
            }
            assert(word.subrange(from, word.len() as int) =~= ending);
        }
    }
}

/// Blocks followed by an ending and one more symbol: the symbol is the
/// last of the word, and the rest is blocks followed by the ending.
pub proof fn lemma_after_blocks_push(word: Seq<u8>, ending: Seq<u8>, last: u8, symbol: u8)
    ensures
        after_blocks(word.push(symbol), ending.push(last)) <==> last == symbol && after_blocks(
            word,
            ending,
        ),
{
    lemma_ends_in_push(word, ending, last, symbol);
}

/// A word of the language followed by an ending and one more symbol: the
/// symbol is the last of the word, and the rest is a word of the language
/// followed by the ending.
pub proof fn lemma_after_language_push(word: Seq<u8>, ending: Seq<u8>, last: u8, symbol: u8)
    ensures
        after_language(word.push(symbol), ending.push(last)) <==> last == symbol && after_language(
            word,
            ending,
        ),
{
    lemma_ends_in_push(word, ending, last, symbol);
}

/// A word that ends with a symbol is made of blocks exactly when the
/// symbol completes a block after blocks.
pub proof fn lemma_blocks_push(word: Seq<u8>, symbol: u8)
    ensures
        is_blocks(word.push(symbol)) <==> {
            ||| symbol == SYM_A && after_blocks(word, letters2(SYM_A, SYM_B))
            ||| symbol == SYM_B && after_blocks(word, letters2(SYM_B, SYM_A))
            ||| symbol == SYM_B && after_blocks(word, letters3(SYM_A, SYM_A, SYM_B))
        },
{
    lemma_ends_in_push(word, letters2(SYM_A, SYM_B), SYM_A, symbol);
    lemma_ends_in_push(word, letters2(SYM_B, SYM_A), SYM_B, symbol);
    lemma_ends_in_push(word, letters3(SYM_A, SYM_A, SYM_B), SYM_B, symbol);
}

/// A word that ends with a symbol belongs to the language exactly when the
/// symbol completes the core after blocks, or a block after a word of the
/// language.
pub proof fn lemma_language_push(word: Seq<u8>, symbol: u8)
    ensures
        in_language(word.push(symbol)) <==> {
            ||| symbol == SYM_A && after_blocks(word, letters4(SYM_A, SYM_A, SYM_B, SYM_B))
            ||| symbol == SYM_A && after_blocks(word, letters4(SYM_A, SYM_B, SYM_B, SYM_B))
            ||| symbol == SYM_A && after_blocks(word, letters4(SYM_B, SYM_A, SYM_B, SYM_B))
            ||| symbol == SYM_A && after_blocks(word, letters4(SYM_B, SYM_B, SYM_B, SYM_B))
            ||| symbol == SYM_A && after_language(word, letters2(SYM_A, SYM_B))
            ||| symbol == SYM_B && after_language(word, letters2(SYM_B, SYM_A))
            ||| symbol == SYM_B && after_language(word, letters3(SYM_A, SYM_A, SYM_B))
        },
{
    lemma_ends_in_push(word, letters4(SYM_A, SYM_A, SYM_B, SYM_B), SYM_A, symbol);
    lemma_ends_in_push(word, letters4(SYM_A, SYM_B, SYM_B, SYM_B), SYM_A, symbol);
    lemma_ends_in_push(word, letters4(SYM_B, SYM_A, SYM_B, SYM_B), SYM_A, symbol);
    lemma_ends_in_push(word, letters4(SYM_B, SYM_B, SYM_B, SYM_B), SYM_A, symbol);
    lemma_ends_in_push(word, letters2(SYM_A, SYM_B), SYM_A, symbol);
    lemma_ends_in_push(word, letters2(SYM_B, SYM_A), SYM_B, symbol);
    lemma_ends_in_push(word, letters3(SYM_A, SYM_A, SYM_B), SYM_B, symbol);
}

/// Nothing follows: blocks followed by the empty word are blocks, and a
/// word of the language followed by the empty word is one.
pub proof fn lemma_after_nothing(word: Seq<u8>)
    ensures
        after_blocks(word, Seq::<u8>::empty()) == is_blocks(word),
        after_language(word, Seq::<u8>::empty()) == in_language(word),
{
    assert(without_last(word, 0) =~= word);
    assert(word.subrange(word.len() as int, word.len() as int) =~= Seq::<u8>::empty());
}

/// The words after which the reference NFA can be in state `q`, for every
/// state but the sink: the blocks, the symbols of a block begun, the
/// symbols of the core begun, and after the core the same again.
pub open spec fn leads_to(q: int, word: Seq<u8>) -> bool {
    if q == 1 {
        is_blocks(word)
    } else if q == 2 {
        after_blocks(word, letters1(SYM_A))
    } else if q == 3 {
        after_blocks(word, letters2(SYM_A, SYM_A))
    } else if q == 4 {
        after_blocks(word, letters3(SYM_A, SYM_A, SYM_B))
    } else if q == 5 {
        ||| after_blocks(word, letters4(SYM_A, SYM_A, SYM_B, SYM_B))
        ||| after_blocks(word, letters4(SYM_A, SYM_B, SYM_B, SYM_B))
        ||| after_blocks(word, letters4(SYM_B, SYM_A, SYM_B, SYM_B))
        ||| after_blocks(word, letters4(SYM_B, SYM_B, SYM_B, SYM_B))
    } else if q == 6 {
        after_blocks(word, letters2(SYM_A, SYM_B))
    } else if q == 7 {
        ||| after_blocks(word, letters3(SYM_A, SYM_B, SYM_B))
        ||| after_blocks(word, letters3(SYM_B, SYM_A, SYM_B))
        ||| after_blocks(word, letters3(SYM_B, SYM_B, SYM_B))
    } else if q == 8 {
        in_language(word)
    } else if q == 9 {
        after_blocks(word, letters1(SYM_B))
    } else if q == 10 {
        after_blocks(word, letters2(SYM_B, SYM_A))
    } else if q == 11 {
        after_blocks(word, letters2(SYM_B, SYM_B))
    } else if q == 12 {
        after_language(word, letters1(SYM_A))
    } else if q == 13 {
        after_language(word, letters2(SYM_A, SYM_A))
    } else if q == 14 {
        after_language(word, letters3(SYM_A, SYM_A, SYM_B))
    } else if q == 15 {
        after_language(word, letters2(SYM_A, SYM_B))
    } else if q == 16 {
        after_language(word, letters1(SYM_B))
    } else if q == 17 {
        after_language(word, letters2(SYM_B, SYM_A))
    } else {
        false
    }
}

/// The transitions of the reference NFA, one by one.
pub open spec fn is_edge(q: int, symbol: u8, target: int) -> bool {
    ||| (q == 0 && symbol == SYM_A && target == 0)
    ||| (q == 0 && symbol == SYM_B && target == 0)
    ||| (q == 1 && symbol == SYM_A && target == 2)
    ||| (q == 1 && symbol == SYM_B && target == 9)
    ||| (q == 2 && symbol == SYM_A && target == 3)
    ||| (q == 2 && symbol == SYM_B && target == 6)
    ||| (q == 3 && symbol == SYM_A && target == 0)
    ||| (q == 3 && symbol == SYM_B && target == 4)
    ||| (q == 4 && symbol == SYM_A && target == 0)
    ||| (q == 4 && symbol == SYM_B && target == 5)
    ||| (q == 4 && symbol == SYM_B && target == 1)
    ||| (q == 5 && symbol == SYM_A && target == 8)
    ||| (q == 5 && symbol == SYM_B && target == 0)
    ||| (q == 6 && symbol == SYM_A && target == 1)
    ||| (q == 6 && symbol == SYM_B && target == 7)
    ||| (q == 7 && symbol == SYM_A && target == 0)
    ||| (q == 7 && symbol == SYM_B && target == 5)
    ||| (q == 8 && symbol == SYM_A && target == 12)
    ||| (q == 8 && symbol == SYM_B && target == 16)
    ||| (q == 9 && symbol == SYM_A && target == 10)
    ||| (q == 9 && symbol == SYM_B && target == 11)
    ||| (q == 10 && symbol == SYM_A && target == 0)
    ||| (q == 10 && symbol == SYM_B && target == 7)
    ||| (q == 10 && symbol == SYM_B && target == 1)
    ||| (q == 11 && symbol == SYM_A && target == 0)
    ||| (q == 11 && symbol == SYM_B && target == 7)
    ||| (q == 12 && symbol == SYM_A && target == 13)
    ||| (q == 12 && symbol == SYM_B && target == 15)
    ||| (q == 13 && symbol == SYM_A && target == 0)
    ||| (q == 13 && symbol == SYM_B && target == 14)
    ||| (q == 14 && symbol == SYM_A && target == 0)
    ||| (q == 14 && symbol == SYM_B && target == 8)
    ||| (q == 15 && symbol == SYM_A && target == 8)
    ||| (q == 15 && symbol == SYM_B && target == 0)
    ||| (q == 16 && symbol == SYM_A && target == 17)
    ||| (q == 16 && symbol == SYM_B && target == 0)
    ||| (q == 17 && symbol == SYM_A && target == 0)
    ||| (q == 17 && symbol == SYM_B && target == 8)
}

/// `is_edge` holds exactly the transitions of the reference NFA.
pub proof fn lemma_edges(q: int, symbol: u8, target: int)
    requires
        is_symbol(symbol),
    ensures
        reference_nfa().succ(q, symbol).contains(target) <==> is_edge(q, symbol, target),
{
    let row = reference_nfa().succ(q, symbol);
    if row.contains(target) {
        let j = choose|j: int| 0 <= j < row.len() && row[j] == target;
        assert(row[j] == target);
    }
    if is_edge(q, symbol, target) {
        assert(row[0] == target || row[1] == target);
    }
}

/// The words that lead to a state, one symbol on: a word that ends with a
/// symbol leads to a state exactly when the rest leads to a state with a
/// transition on the symbol to it.
pub proof fn lemma_leads_to_push(word: Seq<u8>, symbol: u8, target: int)
    requires
        is_symbol(symbol),
        1 <= target <= 17,
    ensures
        leads_to(target, word.push(symbol)) <==> exists|q: int|
            1 <= q <= 17 && leads_to(q, word) && #[trigger] is_edge(q, symbol, target),
{
    let nothing = Seq::<u8>::empty();
    lemma_after_nothing(word);
    lemma_blocks_push(word, symbol);
    lemma_language_push(word, symbol);
    lemma_after_blocks_push(word, nothing, SYM_A, symbol);
    lemma_after_blocks_push(word, nothing, SYM_B, symbol);
    lemma_after_blocks_push(word, letters1(SYM_A), SYM_A, symbol);
    lemma_after_blocks_push(word, letters1(SYM_A), SYM_B, symbol);
    lemma_after_blocks_push(word, letters1(SYM_B), SYM_A, symbol);
    lemma_after_blocks_push(word, letters1(SYM_B), SYM_B, symbol);
    lemma_after_blocks_push(word, letters2(SYM_A, SYM_A), SYM_B, symbol);
    lemma_after_blocks_push(word, letters2(SYM_A, SYM_B), SYM_B, symbol);
    lemma_after_blocks_push(word, letters2(SYM_B, SYM_A), SYM_B, symbol);
    lemma_after_blocks_push(word, letters2(SYM_B, SYM_B), SYM_B, symbol);
    lemma_after_blocks_push(word, letters3(SYM_A, SYM_A, SYM_B), SYM_B, symbol);
    lemma_after_blocks_push(word, letters3(SYM_A, SYM_B, SYM_B), SYM_B, symbol);
    lemma_after_blocks_push(word, letters3(SYM_B, SYM_A, SYM_B), SYM_B, symbol);
    lemma_after_blocks_push(word, letters3(SYM_B, SYM_B, SYM_B), SYM_B, symbol);
    lemma_after_language_push(word, nothing, SYM_A, symbol);
    lemma_after_language_push(word, nothing, SYM_B, symbol);
    lemma_after_language_push(word, letters1(SYM_A), SYM_A, symbol);
    lemma_after_language_push(word, letters1(SYM_A), SYM_B, symbol);
    lemma_after_language_push(word, letters1(SYM_B), SYM_A, symbol);
    lemma_after_language_push(word, letters2(SYM_A, SYM_A), SYM_B, symbol);
    if leads_to(target, word.push(symbol)) {
        // the state that the rest leads to, transition by transition
        if symbol == SYM_A && target == 2 && leads_to(1, word) {
            assert(is_edge(1, symbol, target));
        }
        if symbol == SYM_B && target == 9 && leads_to(1, word) {
            assert(is_edge(1, symbol, target));
        }
        if symbol == SYM_A && target == 3 && leads_to(2, word) {
            assert(is_edge(2, symbol, target));
        }
        if symbol == SYM_B && target == 6 && leads_to(2, word) {
            assert(is_edge(2, symbol, target));
        }
        if symbol == SYM_B && target == 4 && leads_to(3, word) {
            assert(is_edge(3, symbol, target));
        }
        if symbol == SYM_B && target == 5 && leads_to(4, word) {
            assert(is_edge(4, symbol, target));
        }
        if symbol == SYM_B && target == 1 && leads_to(4, word) {
            assert(is_edge(4, symbol, target));
        }
        if symbol == SYM_A && target == 8 && leads_to(5, word) {
            assert(is_edge(5, symbol, target));
        }
        if symbol == SYM_A && target == 1 && leads_to(6, word) {
            assert(is_edge(6, symbol, target));
        }
        if symbol == SYM_B && target == 7 && leads_to(6, word) {
            assert(is_edge(6, symbol, target));
        }
        if symbol == SYM_B && target == 5 && leads_to(7, word) {
            assert(is_edge(7, symbol, target));
        }
        if symbol == SYM_A && target == 12 && leads_to(8, word) {
            assert(is_edge(8, symbol, target));
        }
        if symbol == SYM_B && target == 16 && leads_to(8, word) {
            assert(is_edge(8, symbol, target));
        }
        if symbol == SYM_A && target == 10 && leads_to(9, word) {
            assert(is_edge(9, symbol, target));
        }
        if symbol == SYM_B && target == 11 && leads_to(9, word) {
            assert(is_edge(9, symbol, target));
        }
        if symbol == SYM_B && target == 7 && leads_to(10, word) {
            assert(is_edge(10, symbol, target));
        }
        if symbol == SYM_B && target == 1 && leads_to(10, word) {
            assert(is_edge(10, symbol, target));
        }
        if symbol == SYM_B && target == 7 && leads_to(11, word) {
            assert(is_edge(11, symbol, target));
        }
        if symbol == SYM_A && target == 13 && leads_to(12, word) {
            assert(is_edge(12, symbol, target));
        }
        if symbol == SYM_B && target == 15 && leads_to(12, word) {
            assert(is_edge(12, symbol, target));
        }
        if symbol == SYM_B && target == 14 && leads_to(13, word) {
            assert(is_edge(13, symbol, target));
        }
        if symbol == SYM_B && target == 8 && leads_to(14, word) {
            assert(is_edge(14, symbol, target));
        }
        if symbol == SYM_A && target == 8 && leads_to(15, word) {
            assert(is_edge(15, symbol, target));
        }
        if symbol == SYM_A && target == 17 && leads_to(16, word) {
            assert(is_edge(16, symbol, target));
        }
        if symbol == SYM_B && target == 8 && leads_to(17, word) {
            assert(is_edge(17, symbol, target));
        }
    }
}

/// After a word over the binary alphabet the reference NFA can be in a
/// state other than the sink exactly when the word leads to the state.
pub proof fn lemma_reach_is_leads_to(word: Seq<u8>, q: int)
    requires
        is_binary_word(word),
        1 <= q <= 17,
    ensures
        reference_nfa().reach(word).contains(q) <==> leads_to(q, word),
    decreases word.len(),
{
    let nfa = reference_nfa();
    let succ = nfa.successors();
    if word.len() == 0 {
        assert(nfa.reach(word) == set![1int]);
    } else {
        let head = word.drop_last();
        let symbol = word.last();
        assert(word == head.push(symbol));
        lemma_binary_word_push(head, symbol);
        lemma_leads_to_push(head, symbol, q);
        if nfa.reach(word).contains(q) {
            let s = choose|s: int| nfa.reach(head).contains(s) && leads(succ, s, symbol, q);
            lemma_edges(s, symbol, q);
            lemma_reach_is_leads_to(head, s);
        }
        if leads_to(q, word) {
            let s = choose|s: int|
                1 <= s <= 17 && leads_to(s, head) && #[trigger] is_edge(s, symbol, q);
            lemma_edges(s, symbol, q);
            lemma_reach_is_leads_to(head, s);
            assert(nfa.reach(head).contains(s) && leads(succ, s, symbol, q));
        }
    }
}

/// A word made of blocks is over the binary alphabet.
pub proof fn lemma_blocks_are_binary(word: Seq<u8>)
    requires
        is_blocks(word),
    ensures
        is_binary_word(word),
    decreases word.len(),
{
    if word.len() > 0 {
        let count: nat = if ends_in(word, block_aabb()) && is_blocks(without_last(word, 4)) {
            4
        } else {
            3
        };
        let ending = word.subrange(word.len() - count, word.len() as int);
        lemma_blocks_are_binary(without_last(word, count));
        assert forall|i: int| 0 <= i < word.len() implies is_symbol(#[trigger] word[i]) by {
            if i < word.len() - count {
                assert(without_last(word, count)[i] == word[i]);
            } else {
                assert(ending[i - (word.len() - count)] == word[i]);
            }
        }
    }
}

/// A word followed by an ending over the binary alphabet is over the
/// binary alphabet where the word before the ending is.
pub proof fn lemma_ending_is_binary(word: Seq<u8>, ending: Seq<u8>)
    requires
        ends_in(word, ending),
        is_binary_word(ending),
        is_binary_word(without_last(word, ending.len())),
    ensures
        is_binary_word(word),
{
    let from = word.len() - ending.len();
    assert forall|i: int| 0 <= i < word.len() implies is_symbol(#[trigger] word[i]) by {
        if i < from {
            assert(without_last(word, ending.len())[i] == word[i]);
        } else {
            assert(word.subrange(from, word.len() as int)[i - from] == word[i]);
        }
    }
}

/// A word of the language is over the binary alphabet.
pub proof fn lemma_language_is_binary(word: Seq<u8>)
    requires
        in_language(word),
    ensures
        is_binary_word(word),
    decreases word.len(),
{
    if is_core(word) {
        let ending = if after_blocks(word, letters5(SYM_A, SYM_A, SYM_B, SYM_B, SYM_A)) {
            letters5(SYM_A, SYM_A, SYM_B, SYM_B, SYM_A)
        } else if after_blocks(word, letters5(SYM_A, SYM_B, SYM_B, SYM_B, SYM_A)) {
            letters5(SYM_A, SYM_B, SYM_B, SYM_B, SYM_A)
        } else if after_blocks(word, letters5(SYM_B, SYM_A, SYM_B, SYM_B, SYM_A)) {
            letters5(SYM_B, SYM_A, SYM_B, SYM_B, SYM_A)
        } else {
            letters5(SYM_B, SYM_B, SYM_B, SYM_B, SYM_A)
        };
        lemma_blocks_are_binary(without_last(word, 5));
        lemma_ending_is_binary(word, ending);
    } else {
        let ending = if ends_in(word, block_aba()) && in_language(without_last(word, 3)) {
            block_aba()
        } else if ends_in(word, block_bab()) && in_language(without_last(word, 3)) {
            block_bab()
        } else {
            block_aabb()
        };
        lemma_language_is_binary(without_last(word, ending.len()));
        lemma_ending_is_binary(word, ending);
    }
}

/// The reference NFA accepts exactly the words of the reference language.
pub proof fn lemma_nfa_accepts_language(word: Seq<u8>)
    ensures
        reference_nfa().accepts(word) <==> in_language(word),
{
    let nfa = reference_nfa();
    if is_binary_word(word) {
        lemma_reach_is_leads_to(word, 8);
        if nfa.reach(word).contains(8) {
            assert(nfa.reach(word).contains(8) && nfa.accepting.contains(8));
        }
    } else {
        let at = choose|at: int| 0 <= at < word.len() && !is_symbol(#[trigger] word[at]);
        nfa.lemma_foreign_byte_rejects(word, at);
        if in_language(word) {
            lemma_language_is_binary(word);
        }
    }
}

/// The three reference automata accept exactly the words of the reference
/// language, the language of the pattern
/// `(aba|bab|aabb)*(a|b)(a|b)bba(aba|bab|aabb)*`.
pub proof fn lemma_automata_accept_language(word: Seq<char>)
    ensures
        min_dfa().accepts(encode_utf8(word)) <==> in_language(encode_utf8(word)),
        reference_nfa().accepts(encode_utf8(word)) <==> in_language(encode_utf8(word)),
        reference_universal().accepts(word) <==> in_language(encode_utf8(word)),
{
    lemma_reference_automata_agree(word);
    lemma_nfa_accepts_language(encode_utf8(word));
}

} // verus!
