use crate::alphabet::{SYM_A, SYM_B};
use crate::dfa::min_dfa;
use crate::nfa::reference_nfa;
use crate::subset::{lemma_empty_list_to_set, lemma_step_from_empty, lemma_step_insert};
use vstd::prelude::*;

verus! {

/// One current-state set of the reference NFA, with the state of the
/// minimal DFA that stands for it and the cells that a step on `a` and on
/// `b` leads to.
pub struct NfaCell {
    pub states: Set<int>,
    pub class: int,
    pub on_a: int,
    pub on_b: int,
}

/// A cell from its parts.
pub open spec fn nfa_cell_of(states: Set<int>, class: int, on_a: int, on_b: int) -> NfaCell {
    NfaCell { states, class, on_a, on_b }
}

/// The number of current-state sets that the reference NFA can be in.
pub open spec fn nfa_cell_count() -> int {
    80
}

/// The subset construction of the reference NFA: cell 0 holds the start
/// state alone, and every other cell is reached from an earlier one.
pub open spec fn nfa_cells() -> Seq<NfaCell> {
    seq![
        nfa_cell_of(set![1], 1, 1, 2),
        nfa_cell_of(set![2], 2, 3, 4),
        nfa_cell_of(set![9], 3, 5, 6),
        nfa_cell_of(set![3], 5, 7, 8),
        nfa_cell_of(set![6], 6, 0, 9),
        nfa_cell_of(set![10], 7, 7, 10),
        nfa_cell_of(set![11], 4, 7, 9),
        nfa_cell_of(set![0], 0, 7, 7),
        nfa_cell_of(set![4], 10, 7, 11),
        nfa_cell_of(set![7], 11, 7, 12),
        nfa_cell_of(set![1, 7], 12, 13, 14),
        nfa_cell_of(set![1, 5], 31, 15, 16),
        nfa_cell_of(set![5], 30, 17, 7),
        nfa_cell_of(set![0, 2], 2, 18, 19),
        nfa_cell_of(set![5, 9], 32, 20, 21),
        nfa_cell_of(set![2, 8], 36, 22, 23),
        nfa_cell_of(set![0, 9], 3, 24, 21),
        nfa_cell_of(set![8], 35, 25, 26),
        nfa_cell_of(set![0, 3], 5, 7, 27),
        nfa_cell_of(set![0, 6], 6, 28, 29),
        nfa_cell_of(set![8, 10], 39, 30, 31),
        nfa_cell_of(set![0, 11], 4, 7, 29),
        nfa_cell_of(set![3, 12], 13, 32, 33),
        nfa_cell_of(set![6, 16], 18, 34, 29),
        nfa_cell_of(set![0, 10], 7, 7, 35),
        nfa_cell_of(set![12], 8, 36, 37),
        nfa_cell_of(set![16], 17, 38, 7),
        nfa_cell_of(set![0, 4], 10, 7, 39),
        nfa_cell_of(set![0, 1], 1, 13, 16),
        nfa_cell_of(set![0, 7], 11, 7, 40),
        nfa_cell_of(set![0, 12], 8, 32, 41),
        nfa_cell_of(set![1, 7, 16], 22, 42, 43),
        nfa_cell_of(set![0, 13], 15, 7, 44),
        nfa_cell_of(set![4, 15], 28, 45, 39),
        nfa_cell_of(set![1, 17], 24, 13, 46),
        nfa_cell_of(set![0, 1, 7], 12, 13, 43),
        nfa_cell_of(set![13], 15, 7, 47),
        nfa_cell_of(set![15], 30, 17, 7),
        nfa_cell_of(set![17], 23, 7, 17),
        nfa_cell_of(set![0, 1, 5], 31, 48, 16),
        nfa_cell_of(set![0, 5], 30, 45, 7),
        nfa_cell_of(set![0, 15], 30, 45, 7),
        nfa_cell_of(set![0, 2, 17], 25, 18, 49),
        nfa_cell_of(set![0, 5, 9], 32, 50, 21),
        nfa_cell_of(set![0, 14], 23, 7, 45),
        nfa_cell_of(set![0, 8], 35, 30, 51),
        nfa_cell_of(set![8, 9], 37, 52, 53),
        nfa_cell_of(set![14], 23, 7, 17),
        nfa_cell_of(set![0, 2, 8], 36, 54, 55),
        nfa_cell_of(set![0, 6, 8], 38, 56, 57),
        nfa_cell_of(set![0, 8, 10], 39, 30, 58),
        nfa_cell_of(set![0, 16], 17, 59, 7),
        nfa_cell_of(set![10, 12], 14, 32, 60),
        nfa_cell_of(set![11, 16], 19, 59, 29),
        nfa_cell_of(set![0, 3, 12], 13, 32, 61),
        nfa_cell_of(set![0, 6, 16], 18, 62, 29),
        nfa_cell_of(set![0, 1, 12], 9, 63, 64),
        nfa_cell_of(set![0, 7, 16], 21, 59, 40),
        nfa_cell_of(set![0, 1, 7, 16], 22, 42, 43),
        nfa_cell_of(set![0, 17], 23, 7, 45),
        nfa_cell_of(set![1, 7, 15], 29, 48, 43),
        nfa_cell_of(set![0, 4, 15], 28, 45, 39),
        nfa_cell_of(set![0, 1, 17], 24, 13, 65),
        nfa_cell_of(set![0, 2, 13], 16, 18, 66),
        nfa_cell_of(set![0, 9, 15], 32, 50, 21),
        nfa_cell_of(set![0, 8, 9], 37, 67, 68),
        nfa_cell_of(set![0, 6, 14], 26, 28, 69),
        nfa_cell_of(set![0, 10, 12], 14, 32, 70),
        nfa_cell_of(set![0, 11, 16], 19, 59, 29),
        nfa_cell_of(set![0, 7, 8], 41, 30, 71),
        nfa_cell_of(set![0, 1, 7, 15], 29, 48, 43),
        nfa_cell_of(set![0, 5, 16], 33, 72, 7),
        nfa_cell_of(set![0, 8, 17], 44, 30, 73),
        nfa_cell_of(set![0, 8, 16], 42, 74, 51),
        nfa_cell_of(set![0, 12, 17], 27, 32, 75),
        nfa_cell_of(set![0, 8, 15], 43, 76, 51),
        nfa_cell_of(set![0, 8, 12], 40, 77, 78),
        nfa_cell_of(set![0, 12, 13], 20, 32, 79),
        nfa_cell_of(set![0, 15, 16], 33, 72, 7),
        nfa_cell_of(set![0, 14, 15], 34, 45, 45),
    ]
}

/// Cell `i` is closed: a step of the NFA from its states leads to the
/// states of the cells it names, a step of the DFA from its class leads to
/// their classes, and its class accepts exactly when one of its states does.
pub open spec fn nfa_cell_closed(i: int) -> bool {
    let c = nfa_cells()[i];
    let a = nfa_cells()[c.on_a];
    let b = nfa_cells()[c.on_b];
    &&& 0 <= c.on_a < nfa_cell_count()
    &&& 0 <= c.on_b < nfa_cell_count()
    &&& 0 <= c.class < 45
    &&& reference_nfa().step(c.states, SYM_A) =~= a.states
    &&& reference_nfa().step(c.states, SYM_B) =~= b.states
    &&& min_dfa().next[c.class] == (a.class, b.class)
    &&& min_dfa().accepting[c.class] == c.states.contains(8)
}

/// Every cell of the subset construction is closed.
pub proof fn lemma_nfa_cell_closed(i: int)
    requires
        0 <= i < nfa_cell_count(),
    ensures
        nfa_cell_closed(i),
{
    broadcast use {
        lemma_step_insert,
        lemma_step_from_empty,
        lemma_empty_list_to_set,
        Seq::<_>::lemma_push_to_set_commute,
    };
    // the solver takes the step from each cell by these lemmas and
    // compares what it reaches with the table
}

} // verus!
