use crate::alphabet::{
    is_binary_word, is_symbol, lemma_binary_word_push, lemma_code_point_injective, SYM_A, SYM_B,
};
use crate::branch_cells::{
    holds_accepting, lemma_lower_cell_closed, lemma_pair_closed, lemma_upper_cell_closed,
    lower_cell_closed, lower_cells, pair_closed, pair_count, pairs, upper_cell_closed, upper_cells,
};
use crate::dfa::min_dfa;
use crate::nfa::reference_nfa;
use crate::nfa_cells::{lemma_nfa_cell_closed, nfa_cell_closed, nfa_cell_count, nfa_cells};
use crate::subset::{intersects, leads, lemma_dead_run, lemma_reach_next, step_set};
use crate::universal::reference_universal;
use crate::words::is_binary_text;
use vstd::prelude::*;
use vstd::utf8::{encode_scalar, encode_utf8, is_ascii_chars, is_ascii_chars_encode_utf8};

verus! {

/// The cell of the subset construction in which the reference NFA is after
/// `word`.
pub open spec fn nfa_cell_after(word: Seq<u8>) -> int
    decreases word.len(),
{
    if word.len() == 0 {
        0
    } else {
        let before = nfa_cells()[nfa_cell_after(word.drop_last())];
        if word.last() == SYM_A {
            before.on_a
        } else {
            before.on_b
        }
    }
}

/// After a word over the binary alphabet the NFA is in the states of the
/// cell that the word leads to, and the minimal DFA in the class of that
/// cell.
pub proof fn lemma_nfa_cell_tracks(word: Seq<u8>)
    requires
        is_binary_word(word),
    ensures
        0 <= nfa_cell_after(word) < nfa_cell_count(),
        reference_nfa().reach(word) == nfa_cells()[nfa_cell_after(word)].states,
        min_dfa().state_after(word) == nfa_cells()[nfa_cell_after(word)].class,
    decreases word.len(),
{
    if word.len() == 0 {
        assert(nfa_cells()[0].states =~= set![1int]);
    } else {
        let head = word.drop_last();
        assert(word == head.push(word.last()));
        lemma_binary_word_push(head, word.last());
        lemma_nfa_cell_tracks(head);
        let i = nfa_cell_after(head);
        lemma_nfa_cell_closed(i);
        assert(nfa_cell_closed(i));
    }
}

/// The minimal DFA and the reference NFA accept the same words, whatever
/// bytes the words hold.
pub proof fn lemma_dfa_nfa_agree(word: Seq<u8>)
    ensures
        min_dfa().accepts(word) == reference_nfa().accepts(word),
{
    if is_binary_word(word) {
        lemma_nfa_cell_tracks(word);
        let i = nfa_cell_after(word);
        lemma_nfa_cell_closed(i);
        let states = nfa_cells()[i].states;
        assert(intersects(states, set![8int]) == states.contains(8)) by {
            if states.contains(8) {
                assert(states.contains(8) && set![8int].contains(8));
            }
        }
    } else {
        let at = choose|at: int| 0 <= at < word.len() && !is_symbol(#[trigger] word[at]);
        reference_nfa().lemma_foreign_byte_rejects(word, at);
    }
}

/// The pair of branch cells in which the reference universal NFA is after
/// `word`.
pub open spec fn pair_after(word: Seq<char>) -> int
    decreases word.len(),
{
    if word.len() == 0 {
        0
    } else {
        let before = pairs()[pair_after(word.drop_last())];
        if word.last() == 'a' {
            before.on_a
        } else {
            before.on_b
        }
    }
}

/// The bytes of a word over the binary alphabet are its symbols, one byte
/// each.
pub proof fn lemma_binary_text_bytes(word: Seq<char>)
    requires
        is_binary_text(word),
    ensures
        is_binary_word(encode_utf8(word)),
        encode_utf8(word).len() == word.len(),
        forall|i: int|
            0 <= i < word.len() ==> ((#[trigger] encode_utf8(word)[i]) == SYM_A <==> word[i] == 'a'),
{
    assert(is_ascii_chars(word));
    is_ascii_chars_encode_utf8(word);
    let bytes = encode_utf8(word);
    assert forall|i: int| 0 <= i < bytes.len() implies is_symbol(#[trigger] bytes[i]) by {
        assert(word[i] as u8 == bytes[i]);
    }
    assert forall|i: int| 0 <= i < word.len() implies ((#[trigger] bytes[i]) == SYM_A <==> word[i]
        == 'a') by {
        assert(word[i] as u8 == bytes[i]);
    }
}

/// The first byte of a character is the byte of `a` or of `b` only for
/// these two characters.
pub proof fn lemma_first_byte(scalar: u32)
    ensures
        encode_scalar(scalar).len() >= 1,
        encode_scalar(scalar)[0] == SYM_A <==> scalar == 97,
        encode_scalar(scalar)[0] == SYM_B <==> scalar == 98,
{
    if scalar <= 0x7F {
        assert((scalar & 0x7F) as u8 == scalar) by (bit_vector)
            requires
                scalar <= 0x7F,
        ;
    } else {
        let two = ((scalar >> 6) & 0x1F) as u8;
        let three = ((scalar >> 12) & 0x0F) as u8;
        let four = ((scalar >> 18) & 0x7) as u8;
        assert(0xC0u8 | two >= 0xC0) by (bit_vector);
        assert(0xE0u8 | three >= 0xC0) by (bit_vector);
        assert(0xF0u8 | four >= 0xC0) by (bit_vector);
    }
}

/// A word is over the binary alphabet exactly when its bytes are.
pub proof fn lemma_binary_bytes_iff_binary_text(word: Seq<char>)
    ensures
        is_binary_word(encode_utf8(word)) <==> is_binary_text(word),
    decreases word.len(),
{
    if is_binary_text(word) {
        lemma_binary_text_bytes(word);
    } else {
        let at = choose|at: int|
            0 <= at < word.len() && !((#[trigger] word[at]) == 'a' || word[at] == 'b');
        let first = encode_scalar(word[0] as u32);
        let rest = word.drop_first();
        let bytes = encode_utf8(word);
        assert(bytes == first + encode_utf8(rest));
        lemma_first_byte(word[0] as u32);
        if at == 0 {
            assert(bytes[0] == first[0]);
            assert('a' as u32 == 97 && 'b' as u32 == 98);
            lemma_code_point_injective(word[0], 'a');
            lemma_code_point_injective(word[0], 'b');
            assert(!is_symbol(bytes[0]));
        } else {
            assert(rest[at - 1] == word[at]);
            assert(!is_binary_text(rest));
            lemma_binary_bytes_iff_binary_text(rest);
            let j = choose|j: int|
                0 <= j < encode_utf8(rest).len() && !is_symbol(#[trigger] encode_utf8(rest)[j]);
            assert(bytes[first.len() + j] == encode_utf8(rest)[j]);
            assert(!is_symbol(bytes[first.len() + j]));
        }
    }
}

/// The reference universal NFA has no transition on a symbol other than
/// `a` and `b`.
pub proof fn lemma_universal_foreign_symbol(state: int, symbol: char)
    requires
        symbol != 'a',
        symbol != 'b',
    ensures
        reference_universal().succ(state, symbol) == Seq::<int>::empty(),
{
}

/// The reference universal NFA rejects every word that holds a symbol
/// other than `a` and `b`.
pub proof fn lemma_universal_rejects_foreign(word: Seq<char>, at: int)
    requires
        0 <= at < word.len(),
        word[at] != 'a',
        word[at] != 'b',
    ensures
        !reference_universal().accepts(word),
{
    let u = reference_universal();
    let succ = u.successors();
    lemma_reach_next(succ, 16, word, at);
    let before = u.branch_reach(16, word.take(at));
    assert(step_set(succ, before, word[at]) =~= Set::<int>::empty()) by {
        assert forall|t: int| !step_set(succ, before, word[at]).contains(t) by {
            assert forall|s: int| !(before.contains(s) && leads(succ, s, word[at], t)) by {
                lemma_universal_foreign_symbol(s, word[at]);
            }
        }
    }
    lemma_dead_run(succ, 16, word, at + 1, u.accepting);
    assert(u.starts[0] == 16);
    assert(!u.branch_accepts(u.starts[0], word));
}

/// Dropping the last symbol of a word over the binary alphabet drops the
/// last of its bytes.
pub proof fn lemma_binary_text_drop_last(word: Seq<char>)
    requires
        is_binary_text(word),
        word.len() > 0,
    ensures
        is_binary_text(word.drop_last()),
        encode_utf8(word.drop_last()) == encode_utf8(word).drop_last(),
{
    let head = word.drop_last();
    assert(is_binary_text(head)) by {
        assert forall|i: int| 0 <= i < head.len() implies (#[trigger] head[i]) == 'a' || head[i]
            == 'b' by {
            assert(head[i] == word[i]);
        }
    }
    assert(is_ascii_chars(word));
    assert(is_ascii_chars(head));
    is_ascii_chars_encode_utf8(word);
    is_ascii_chars_encode_utf8(head);
    assert forall|i: int| 0 <= i < head.len() implies encode_utf8(head)[i] == encode_utf8(
        word,
    ).drop_last()[i] by {
        assert(head[i] as u8 == encode_utf8(head)[i]);
        assert(word[i] as u8 == encode_utf8(word)[i]);
    }
    assert(encode_utf8(head) =~= encode_utf8(word).drop_last());
}

/// After a word over the binary alphabet each branch of the universal NFA
/// is in the states of its cell of the pair that the word leads to, and
/// the minimal DFA in the class of that pair.
pub proof fn lemma_pair_tracks(word: Seq<char>)
    requires
        is_binary_text(word),
    ensures
        0 <= pair_after(word) < pair_count(),
        pair_closed(pair_after(word)),
        reference_universal().branch_reach(16, word) == upper_cells()[pairs()[pair_after(
            word,
        )].upper].states,
        reference_universal().branch_reach(0, word) == lower_cells()[pairs()[pair_after(
            word,
        )].lower].states,
        min_dfa().state_after(encode_utf8(word)) == pairs()[pair_after(word)].class,
    decreases word.len(),
{
    if word.len() == 0 {
        lemma_pair_closed(0);
        assert(upper_cells()[0].states =~= set![16int]);
        assert(lower_cells()[0].states =~= set![0int]);
        assert(encode_utf8(word).len() == 0);
    } else {
        let head = word.drop_last();
        lemma_binary_text_drop_last(word);
        lemma_binary_text_bytes(word);
        lemma_pair_tracks(head);
        let p = pair_after(head);
        lemma_pair_closed(p);
        lemma_upper_cell_closed(pairs()[p].upper);
        lemma_lower_cell_closed(pairs()[p].lower);
        assert(upper_cell_closed(pairs()[p].upper));
        assert(lower_cell_closed(pairs()[p].lower));
        lemma_pair_closed(pair_after(word));
        let bytes = encode_utf8(word);
        assert(bytes.last() == bytes[word.len() - 1]);
        assert(word.last() == word[word.len() - 1]);
    }
}

/// Over the binary alphabet the minimal DFA and the reference universal
/// NFA accept the same words.
pub proof fn lemma_dfa_universal_agree(word: Seq<char>)
    requires
        is_binary_text(word),
    ensures
        min_dfa().accepts(encode_utf8(word)) == reference_universal().accepts(word),
{
    let u = reference_universal();
    lemma_pair_tracks(word);
    lemma_binary_text_bytes(word);
    let p = pairs()[pair_after(word)];
    let upper = upper_cells()[p.upper].states;
    let lower = lower_cells()[p.lower].states;
    assert(intersects(upper, u.accepting) == holds_accepting(upper)) by {
        if holds_accepting(upper) {
            if upper.contains(11) {
                assert(upper.contains(11) && u.accepting.contains(11));
            } else {
                assert(upper.contains(19) && u.accepting.contains(19));
            }
        }
    }
    assert(intersects(lower, u.accepting) == holds_accepting(lower)) by {
        if holds_accepting(lower) {
            if lower.contains(11) {
                assert(lower.contains(11) && u.accepting.contains(11));
            } else {
                assert(lower.contains(19) && u.accepting.contains(19));
            }
        }
    }
    assert(u.starts[0] == 16 && u.starts[1] == 0 && u.starts.len() == 2);
    assert(u.accepts(word) == (u.branch_accepts(16, word) && u.branch_accepts(0, word))) by {
        if u.accepts(word) {
            assert(u.branch_accepts(u.starts[0], word));
            assert(u.branch_accepts(u.starts[1], word));
        }
    }
}

/// Agreement: the three reference automata give every word the same
/// verdict. A word that holds a symbol other than `a` and `b` is rejected
/// by all three.
pub proof fn lemma_reference_automata_agree(word: Seq<char>)
    ensures
        min_dfa().accepts(encode_utf8(word)) == reference_nfa().accepts(encode_utf8(word)),
        min_dfa().accepts(encode_utf8(word)) == reference_universal().accepts(word),
        !is_binary_text(word) ==> !min_dfa().accepts(encode_utf8(word)),
{
    lemma_dfa_nfa_agree(encode_utf8(word));
    lemma_binary_bytes_iff_binary_text(word);
    if is_binary_text(word) {
        lemma_dfa_universal_agree(word);
    } else {
        let at = choose|at: int|
            0 <= at < word.len() && !((#[trigger] word[at]) == 'a' || word[at] == 'b');
        lemma_universal_rejects_foreign(word, at);
    }
}

} // verus!
